//! Paths as bytes, and the string form that a listing shows for them.

use vstd::prelude::*;
use vstd::string::StrSliceExecFns;
use vstd::utf8::{decode_utf8, encode_utf8, encode_utf8_decode_utf8, encode_utf8_valid_utf8, valid_utf8};

verus! {

/// The string form of a path given as bytes: its decoding when the bytes
/// are valid UTF-8, nothing otherwise.
pub open spec fn text_of(path: Seq<u8>) -> Option<Seq<char>> {
    if valid_utf8(path) {
        Some(decode_utf8(path))
    } else {
        None
    }
}

/// `std::str::from_utf8`: succeeds exactly on valid UTF-8, and the string
/// it gives is made of the bytes it was given.
#[verifier::external_body]
fn utf8_text(bytes: &Vec<u8>) -> (text: Option<String>)
    ensures
        text is Some <==> valid_utf8(bytes@),
        text matches Some(s) ==> encode_utf8(s@) == bytes@,
{
    match std::str::from_utf8(bytes.as_slice()) {
        Ok(s) => Some(s.to_string()),
        Err(_) => None,
    }
}

/// The string form of `path`, if it has one.
pub fn path_text(path: &Vec<u8>) -> (text: Option<String>)
    ensures
        text.deep_view() == text_of(path@),
{
    let text = utf8_text(path);
    proof {
        if text is Some {
            encode_utf8_decode_utf8(text->0@);
        }
    }
    text
}

/// The bytes of a path given as a string. Its string form is `text` again.
pub fn path_bytes(text: &str) -> (path: Vec<u8>)
    ensures
        path@ == encode_utf8(text@),
        text_of(path@) == Some(text@),
{
    proof {
        encode_utf8_valid_utf8(text@);
        encode_utf8_decode_utf8(text@);
    }
    text.as_bytes_vec()
}

} // verus!

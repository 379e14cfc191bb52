use file_server::path::{path_bytes, path_text};

#[test]
fn ascii_bytes_have_their_text() {
    assert_eq!(path_text(&b"/var/log".to_vec()), Some("/var/log".to_string()));
}

#[test]
fn the_empty_path_has_the_empty_text() {
    assert_eq!(path_text(&Vec::new()), Some(String::new()));
}

#[test]
fn multibyte_characters_are_decoded() {
    let bytes: Vec<u8> = vec![b'/', 0xc3, 0xa9, b'/', 0xe6, 0x97, 0xa5, b'/', 0xf0, 0x9f, 0x93, 0x81];
    assert_eq!(path_text(&bytes), Some("/\u{e9}/\u{65e5}/\u{1f4c1}".to_string()));
}

#[test]
fn bytes_that_are_not_utf8_have_no_text() {
    assert_eq!(path_text(&vec![b'/', 0xff]), None);
    assert_eq!(path_text(&vec![0xc3]), None);
    assert_eq!(path_text(&vec![0xc3, 0x28]), None);
    assert_eq!(path_text(&vec![0xe6, 0x97]), None);
    assert_eq!(path_text(&vec![0x80]), None);
}

#[test]
fn overlong_and_surrogate_encodings_have_no_text() {
    assert_eq!(path_text(&vec![0xc0, 0xaf]), None);
    assert_eq!(path_text(&vec![0xed, 0xa0, 0x80]), None);
    assert_eq!(path_text(&vec![0xf4, 0x90, 0x80, 0x80]), None);
}

#[test]
fn the_bytes_of_a_text_are_its_utf8_encoding() {
    assert_eq!(path_bytes("/tmp"), vec![b'/', b't', b'm', b'p']);
    assert_eq!(path_bytes("\u{e9}"), vec![0xc3, 0xa9]);
    assert_eq!(path_bytes(""), Vec::<u8>::new());
}

#[test]
fn text_to_bytes_and_back_is_the_text() {
    for text in ["/", "/mnt/data", "relative/path", "/\u{65e5}\u{672c}/\u{1f4c1}", ""] {
        assert_eq!(path_text(&path_bytes(text)), Some(text.to_string()));
    }
}

//! How vectors of the library's values view as sequences.

use vstd::prelude::*;

verus! {

/// A vector with one more element views as the old view with the element's
/// view pushed.
pub proof fn lemma_pushed<T: DeepView>(before: Vec<T>, after: Vec<T>, last: T)
    requires
        after@ == before@.push(last),
    ensures
        after.deep_view() == before.deep_view().push(last.deep_view()),
{
    assert(after.deep_view() =~= before.deep_view().push(last.deep_view()));
}

/// A stretch of a vector views as the same stretch of the view.
pub proof fn lemma_stretch<T: DeepView>(whole: Vec<T>, part: Vec<T>, from: int, to: int)
    requires
        0 <= from <= to <= whole@.len(),
        part@ == whole@.subrange(from, to),
    ensures
        part.deep_view() == whole.deep_view().subrange(from, to),
{
    assert(part.deep_view() =~= whole.deep_view().subrange(from, to));
}

/// Bytes view as themselves.
pub proof fn lemma_bytes(path: Vec<u8>)
    ensures
        path.deep_view() == path@,
{
    assert(path.deep_view() =~= path@);
}

/// A copy of `path`.
pub fn copy_path(path: &Vec<u8>) -> (copy: Vec<u8>)
    ensures
        copy@ == path@,
        copy.deep_view() == path.deep_view(),
{
    let copy = path.clone();
    proof {
        assert(copy@ =~= path@);
        lemma_bytes(copy);
        lemma_bytes(*path);
    }
    copy
}

/// A copy of `paths`.
pub fn copy_paths(paths: &Vec<Vec<u8>>) -> (copy: Vec<Vec<u8>>)
    ensures
        copy.deep_view() == paths.deep_view(),
{
    let mut copy: Vec<Vec<u8>> = Vec::new();
    let mut i: usize = 0;
    while i < paths.len()
        invariant
            i <= paths.len(),
            copy.deep_view() == paths.deep_view().take(i as int),
        decreases paths.len() - i,
    {
        let ghost before = copy;
        let path = copy_path(&paths[i]);
        copy.push(path);
        proof {
            lemma_pushed(before, copy, path);
            assert(paths.deep_view().take(i + 1) =~= paths.deep_view().take(i as int).push(
                paths@[i as int].deep_view(),
            ));
        }
        i += 1;
    }
    proof {
        assert(paths.deep_view().take(paths.len() as int) =~= paths.deep_view());
    }
    copy
}

} // verus!

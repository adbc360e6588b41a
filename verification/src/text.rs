//! Path text: the final segment of a path, joining a directory with a name,
//! and lower-casing for comparisons that ignore case.

use vstd::prelude::*;

verus! {

/// The character that separates the segments of a path.
pub open spec fn separator() -> char {
    '/'
}

/// Where the final segment of `path` starts: right after its last separator,
/// or at the beginning where it holds none.
pub open spec fn basename_start(path: Seq<char>) -> int
    decreases path.len(),
{
    if path.len() == 0 {
        0
    } else if path.last() == separator() {
        path.len() as int
    } else {
        basename_start(path.drop_last())
    }
}

/// The final segment of `path`: what follows its last separator.
pub open spec fn basename(path: Seq<char>) -> Seq<char> {
    path.skip(basename_start(path))
}

/// The final segment starts inside the path, holds no separator, and is
/// preceded by one unless it is the whole path.
pub proof fn lemma_basename_start(path: Seq<char>)
    ensures
        0 <= basename_start(path) <= path.len(),
        basename_start(path) > 0 ==> path[basename_start(path) - 1] == separator(),
        forall|i: int| basename_start(path) <= i < path.len() ==> path[i] != separator(),
    decreases path.len(),
{
    if path.len() > 0 && path.last() != separator() {
        let front = path.drop_last();
        lemma_basename_start(front);
        assert forall|i: int| basename_start(path) <= i < path.len() implies path[i]
            != separator() by {
            if i < front.len() {
                assert(front[i] == path[i]);
            }
        }
    }
}

/// The values of a list of strings, one by one.
pub open spec fn texts(strings: Seq<String>) -> Seq<Seq<char>> {
    strings.map_values(|text: String| text@)
}

/// The lower-case form of a text, as the standard library's Unicode case
/// mapping gives it.
pub uninterp spec fn lowercase(text: Seq<char>) -> Seq<char>;

/// Lower-cases a text with `str::to_lowercase`. The result is taken on trust
/// to be the case mapping that [`lowercase`] names; nothing more is claimed
/// of it.
#[verifier::external_body]
pub(crate) fn to_lowercase(text: &str) -> (lower: String)
    ensures
        lower@ == lowercase(text@),
{
    text.to_lowercase()
}

/// Whether `text` occurs in `list`.
pub fn contains_text(list: &[String], text: &String) -> (found: bool)
    ensures
        found == texts(list@).contains(text@),
{
    let mut i: usize = 0;
    while i < list.len()
        invariant
            i <= list.len(),
            forall|j: int| 0 <= j < i ==> (#[trigger] texts(list@)[j]) != text@,
        decreases list.len() - i,
    {
        assert(texts(list@)[i as int] == list@[i as int]@);
        if list[i] == *text {
            return true;
        }
        i += 1;
    }
    false
}

/// Computes the final segment of a path.
pub fn extract_basename(path: &str) -> (name: String)
    ensures
        name@ == basename(path@),
{
    let length = path.unicode_len();
    let mut start: usize = 0;
    let mut index: usize = 0;
    for c in it: path.chars()
        invariant
            it.seq() == path@,
            length == path@.len(),
            index == it.index(),
            start == basename_start(path@.take(index as int)),
            start <= index,
    {
        assert(path@.take(index + 1).drop_last() =~= path@.take(index as int));
        index = index + 1;
        if c == '/' {
            start = index;
        }
    }
    assert(path@.take(index as int) =~= path@);
    path.substring_char(start, index).to_owned()
}

} // verus!

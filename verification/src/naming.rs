//! The names under which received files are stored.
//!
//! A file called `report.csv` that arrives at the time `T` is stored as
//! `report_T.csv`, so that a second transfer of the same file does not
//! write over the first.

use vstd::prelude::*;
use vstd::string::*;
use vstd::utf8::{encode_utf8, valid_utf8};

verus! {

/// `at` is where the first dot of `name` stands.
pub open spec fn is_first_dot(name: Seq<char>, at: int) -> bool {
    &&& 0 <= at < name.len()
    &&& name[at] == '.'
    &&& forall|j: int| 0 <= j < at ==> name[j] != '.'
}

/// Where the first dot of `name` stands, if it has one.
pub open spec fn first_dot(name: Seq<char>) -> Option<int> {
    if exists|at: int| is_first_dot(name, at) {
        Some(choose|at: int| is_first_dot(name, at))
    } else {
        None
    }
}

/// The extension of `name`: what follows its first dot, or `dat` where it
/// has no dot.
pub open spec fn extension(name: Seq<char>) -> Seq<char> {
    match first_dot(name) {
        Some(at) => name.skip(at + 1),
        None => seq!['d', 'a', 't'],
    }
}

/// The stem of `name`: what stands before its first dot, or all of it
/// where it has no dot.
pub open spec fn stem(name: Seq<char>) -> Seq<char> {
    match first_dot(name) {
        Some(at) => name.take(at),
        None => name,
    }
}

/// The name under which a file announced as `name` is stored when its
/// header arrives at the time written as `stamp`: stem, underscore, stamp,
/// dot, extension.
pub open spec fn stored_name(name: Seq<char>, stamp: Seq<char>) -> Seq<char> {
    stem(name) + seq!['_'] + stamp + seq!['.'] + extension(name)
}

/// The first dot, once found, is the one `first_dot` names.
pub proof fn lemma_first_dot_is(name: Seq<char>, at: int)
    requires
        is_first_dot(name, at),
    ensures
        first_dot(name) == Some(at),
{
    let chosen = choose|i: int| is_first_dot(name, i);
    assert(is_first_dot(name, chosen));
    if chosen < at {
        assert(name[chosen] != '.');
    } else if at < chosen {
        assert(name[at] != '.');
    }
}

/// Finds the first dot of `name`.
fn find_first_dot(name: &str) -> (found: Option<usize>)
    ensures
        match found {
            Some(at) => first_dot(name@) == Some(at as int),
            None => first_dot(name@) is None,
        },
{
    let len = name.unicode_len();
    let mut at: usize = 0;
    while at < len
        invariant
            len == name@.len(),
            at <= len,
            forall|j: int| 0 <= j < at ==> name@[j] != '.',
        decreases len - at,
    {
        if name.get_char(at) == '.' {
            proof {
                lemma_first_dot_is(name@, at as int);
            }
            return Some(at);
        }
        at += 1;
    }
    assert(first_dot(name@) is None) by {
        if exists|i: int| is_first_dot(name@, i) {
            let i = choose|i: int| is_first_dot(name@, i);
            assert(name@[i] != '.');
        }
    }
    None
}

/// Builds the name under which a file announced as `name` is stored when
/// its header arrives at the time written as `stamp`.
pub fn derive_file_name(name: &str, stamp: &str) -> (stored: String)
    ensures
        stored@ == stored_name(name@, stamp@),
{
    let len = name.unicode_len();
    proof {
        reveal_strlit("_");
        reveal_strlit(".");
        reveal_strlit("dat");
    }
    let (stem_text, extension_text) = match find_first_dot(name) {
        Some(at) => (name.substring_char(0, at), name.substring_char(at + 1, len)),
        None => (name, "dat"),
    };
    let mut stored = String::from_str(stem_text);
    stored.append("_");
    stored.append(stamp);
    stored.append(".");
    stored.append(extension_text);
    assert(stem_text@ =~= stem(name@));
    assert(extension_text@ =~= extension(name@));
    assert("_"@ =~= seq!['_']);
    assert("."@ =~= seq!['.']);
    assert(stored@ =~= stored_name(name@, stamp@));
    stored
}

/// The text that `String::from_utf8_lossy` makes of `bytes`.
pub uninterp spec fn lossy_text(bytes: Seq<u8>) -> Seq<char>;

/// Bytes that are valid UTF-8 are read as the text that they encode.
pub open spec fn keeps_valid_text(bytes: Seq<u8>) -> bool {
    valid_utf8(bytes) ==> encode_utf8(lossy_text(bytes)) == bytes
}

/// Reads `bytes` as text with `String::from_utf8_lossy` of the standard
/// library. The contract names the result and adds what the documentation
/// of that function says of bytes that are valid UTF-8: they are kept as
/// they are, so the text is the one that they encode. What it makes of
/// other bytes (each invalid sequence becomes U+FFFD) is not stated here.
#[verifier::external_body]
pub(crate) fn text_of(bytes: &[u8]) -> (text: String)
    ensures
        text@ == lossy_text(bytes@),
        valid_utf8(bytes@) ==> encode_utf8(text@) == bytes@,
{
    String::from_utf8_lossy(bytes).into_owned()
}

/// Asks `chrono::Local::now` for the local time and writes it with the
/// format `%Y-%m-%d_%H-%M-%S`, as in `2024-01-02_03-04-05`. The result
/// depends on the clock and the time zone of the machine, so nothing is
/// claimed of it.
#[verifier::external_body]
pub(crate) fn local_stamp() -> String {
    chrono::Local::now().format("%Y-%m-%d_%H-%M-%S").to_string()
}

} // verus!

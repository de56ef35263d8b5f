//! Searching a byte sequence for a pattern or a single byte.

use vstd::prelude::*;

verus! {

/// An offset that a search came back with, as a number.
pub open spec fn offset_view(found: Option<usize>) -> Option<int> {
    match found {
        Some(at) => Some(at as int),
        None => None,
    }
}

/// `pat` stands in `hay` at offset `at`.
pub open spec fn occurs_at(hay: Seq<u8>, pat: Seq<u8>, at: int) -> bool {
    &&& 0 <= at
    &&& at + pat.len() <= hay.len()
    &&& hay.subrange(at, at + pat.len()) == pat
}

/// `at` is the leftmost offset at which `pat` stands in `hay`.
pub open spec fn is_first_match(hay: Seq<u8>, pat: Seq<u8>, at: int) -> bool {
    &&& occurs_at(hay, pat, at)
    &&& forall|j: int| 0 <= j < at ==> !occurs_at(hay, pat, j)
}

/// The leftmost offset at which `pat` stands in `hay`, if it stands there at all.
pub open spec fn first_match(hay: Seq<u8>, pat: Seq<u8>) -> Option<int> {
    if exists|at: int| is_first_match(hay, pat, at) {
        Some(choose|at: int| is_first_match(hay, pat, at))
    } else {
        None
    }
}

/// A leftmost match is the one `first_match` names.
pub proof fn lemma_first_match_is(hay: Seq<u8>, pat: Seq<u8>, at: int)
    requires
        is_first_match(hay, pat, at),
    ensures
        first_match(hay, pat) == Some(at),
{
    let chosen = choose|k: int| is_first_match(hay, pat, k);
    assert(is_first_match(hay, pat, chosen));
    if chosen < at {
        assert(!occurs_at(hay, pat, chosen));
    } else if at < chosen {
        assert(!occurs_at(hay, pat, at));
    }
}

/// Without any match `first_match` names none.
pub proof fn lemma_first_match_none(hay: Seq<u8>, pat: Seq<u8>)
    requires
        forall|at: int| !occurs_at(hay, pat, at),
    ensures
        first_match(hay, pat) is None,
{
}

/// Two byte slices hold the same bytes from `at` on, for the length of `pat`.
fn matches_at(hay: &[u8], pat: &[u8], at: usize) -> (hit: bool)
    requires
        at + pat.len() <= hay.len(),
    ensures
        hit == occurs_at(hay@, pat@, at as int),
{
    let mut k: usize = 0;
    while k < pat.len()
        invariant
            k <= pat.len(),
            at + pat.len() <= hay.len(),
            forall|j: int| 0 <= j < k ==> hay@[at + j] == pat@[j],
        decreases pat.len() - k,
    {
        if hay[at + k] != pat[k] {
            proof {
                let window = hay@.subrange(at as int, at + pat@.len());
                assert(window[k as int] == hay@[at + k]);
            }
            return false;
        }
        k += 1;
    }
    assert(hay@.subrange(at as int, at + pat@.len()) =~= pat@);
    true
}

/// Finds the leftmost place where `pat` stands in `hay`.
pub fn find_pattern(hay: &[u8], pat: &[u8]) -> (found: Option<usize>)
    ensures
        offset_view(found) == first_match(hay@, pat@),
        found matches Some(at) ==> is_first_match(hay@, pat@, at as int),
        found is None ==> forall|at: int| !occurs_at(hay@, pat@, at),
{
    if pat.len() > hay.len() {
        proof {
            lemma_first_match_none(hay@, pat@);
        }
        return None;
    }
    let last: usize = hay.len() - pat.len();
    let mut at: usize = 0;
    loop
        invariant
            last == hay.len() - pat.len(),
            at <= last,
            forall|j: int| 0 <= j < at ==> !occurs_at(hay@, pat@, j),
        decreases last - at,
    {
        if matches_at(hay, pat, at) {
            proof {
                lemma_first_match_is(hay@, pat@, at as int);
            }
            return Some(at);
        }
        if at == last {
            proof {
                lemma_first_match_none(hay@, pat@);
            }
            return None;
        }
        at += 1;
    }
}

/// The leftmost index at or after `from` that holds `byte`, if there is one.
pub open spec fn first_byte_from(hay: Seq<u8>, from: int, byte: u8) -> Option<int> {
    if exists|i: int| is_first_byte_from(hay, from, byte, i) {
        Some(choose|i: int| is_first_byte_from(hay, from, byte, i))
    } else {
        None
    }
}

/// `at` is the leftmost index at or after `from` that holds `byte`.
pub open spec fn is_first_byte_from(hay: Seq<u8>, from: int, byte: u8, at: int) -> bool {
    &&& 0 <= from <= at < hay.len()
    &&& hay[at] == byte
    &&& forall|j: int| from <= j < at ==> hay[j] != byte
}

/// A leftmost holder of `byte` is the one `first_byte_from` names.
pub proof fn lemma_first_byte_is(hay: Seq<u8>, from: int, byte: u8, at: int)
    requires
        is_first_byte_from(hay, from, byte, at),
    ensures
        first_byte_from(hay, from, byte) == Some(at),
{
    let chosen = choose|i: int| is_first_byte_from(hay, from, byte, i);
    assert(is_first_byte_from(hay, from, byte, chosen));
    if chosen < at {
        assert(hay[chosen] != byte);
    } else if at < chosen {
        assert(hay[at] != byte);
    }
}

/// Where no index from `from` on holds `byte`, `first_byte_from` names none.
pub proof fn lemma_first_byte_none(hay: Seq<u8>, from: int, byte: u8)
    requires
        forall|j: int| 0 <= from <= j < hay.len() ==> hay[j] != byte,
    ensures
        first_byte_from(hay, from, byte) is None,
{
    if exists|i: int| is_first_byte_from(hay, from, byte, i) {
        let i = choose|i: int| is_first_byte_from(hay, from, byte, i);
        assert(hay[i] != byte);
    }
}

/// Finds the leftmost index at or after `from` that holds `byte`.
pub fn find_byte_from(hay: &[u8], from: usize, byte: u8) -> (found: Option<usize>)
    ensures
        offset_view(found) == first_byte_from(hay@, from as int, byte),
        found matches Some(at) ==> is_first_byte_from(hay@, from as int, byte, at as int),
        found is None ==> forall|j: int| from <= j < hay@.len() ==> hay@[j] != byte,
{
    let mut at: usize = from;
    while at < hay.len()
        invariant
            from <= at,
            forall|j: int| from <= j < at && j < hay.len() ==> hay@[j] != byte,
        decreases hay.len() - at,
    {
        if hay[at] == byte {
            proof {
                lemma_first_byte_is(hay@, from as int, byte, at as int);
            }
            return Some(at);
        }
        at += 1;
    }
    proof {
        lemma_first_byte_none(hay@, from as int, byte);
    }
    None
}

} // verus!

//! Byte searches, done by the `memchr` crate.

use vstd::prelude::*;
use memchr::Memchr2;

verus! {

/// Index of the first `byte` in `s` at or after `from`; `s.len()` if there is none.
pub open spec fn find_from(s: Seq<u8>, byte: u8, from: int) -> int
    decreases s.len() - from,
{
    if from >= s.len() {
        s.len() as int
    } else if from >= 0 && s[from] == byte {
        from
    } else {
        find_from(s, byte, from + 1)
    }
}

/// `find_from` lands on the first occurrence at or after `from`, or on the end.
pub proof fn lemma_find_from(s: Seq<u8>, byte: u8, from: int)
    requires
        0 <= from <= s.len(),
    ensures
        from <= find_from(s, byte, from) <= s.len(),
        find_from(s, byte, from) < s.len() ==> s[find_from(s, byte, from)] == byte,
        forall|j: int| from <= j < find_from(s, byte, from) ==> s[j] != byte,
    decreases s.len() - from,
{
    if from < s.len() && s[from] != byte {
        lemma_find_from(s, byte, from + 1);
    }
}

/// A position that no earlier occurrence precedes is the one `find_from` lands on.
pub proof fn lemma_find_from_unique(s: Seq<u8>, byte: u8, from: int, at: int)
    requires
        0 <= from <= at <= s.len(),
        forall|j: int| from <= j < at ==> s[j] != byte,
        at < s.len() ==> s[at] == byte,
    ensures
        find_from(s, byte, from) == at,
    decreases at - from,
{
    if from < at {
        lemma_find_from_unique(s, byte, from + 1, at);
    }
}

/// `memchr::memchr` returns the index of the first occurrence of `needle`, or `None` where
/// the haystack does not hold it.
pub assume_specification[ memchr::memchr ](needle: u8, haystack: &[u8]) -> (found: Option<usize>)
    ensures
        found matches Some(i) ==> i < haystack@.len() && haystack@[i as int] == needle,
        found matches Some(i) ==> forall|j: int| 0 <= j < i ==> haystack@[j] != needle,
        found is None ==> forall|j: int| 0 <= j < haystack@.len() ==> haystack@[j] != needle,
;

/// `memchr::Memchr2`, the iterator that `memchr2_iter` returns; what one has yet to yield
/// is told by `pending`.
#[verifier::external_type_specification]
#[verifier::external_body]
pub struct ExMemchr2<'h>(Memchr2<'h>);

/// The positions that an iterator has yet to yield, in the order in which it yields them.
pub uninterp spec fn pending(it: Memchr2) -> Seq<usize>;

/// The positions at or after `from` at which `s` holds `a` or `b`, in increasing order.
pub open spec fn matches_from(s: Seq<u8>, a: u8, b: u8, from: int) -> Seq<usize>
    decreases s.len() - from,
{
    if from >= s.len() || from < 0 {
        Seq::empty()
    } else if s[from] == a || s[from] == b {
        seq![from as usize] + matches_from(s, a, b, from + 1)
    } else {
        matches_from(s, a, b, from + 1)
    }
}

/// What `matches_from` starts with: nothing where neither byte occurs at or after `from`;
/// else the first such position, followed by the matches after it.
pub proof fn lemma_matches_from(s: Seq<u8>, a: u8, b: u8, from: int)
    requires
        0 <= from <= s.len() <= usize::MAX,
    ensures
        matches_from(s, a, b, from).len() == 0 ==> forall|j: int|
            from <= j < s.len() ==> s[j] != a && s[j] != b,
        matches_from(s, a, b, from).len() > 0 ==> {
            let first = matches_from(s, a, b, from)[0];
            &&& from <= first < s.len()
            &&& s[first as int] == a || s[first as int] == b
            &&& forall|j: int| from <= j < first ==> s[j] != a && s[j] != b
            &&& matches_from(s, a, b, from).skip(1) == matches_from(s, a, b, first + 1)
        },
    decreases s.len() - from,
{
    if from < s.len() {
        lemma_matches_from(s, a, b, from + 1);
        if s[from] == a || s[from] == b {
            assert(matches_from(s, a, b, from).skip(1) == matches_from(s, a, b, from + 1));
        }
    }
}

/// `memchr::memchr2_iter`: the iterator will yield every position at which the haystack
/// holds one of the two needles, from the first to the last.
#[verifier::external_body]
pub(crate) fn find_each<'h>(needle1: u8, needle2: u8, haystack: &'h [u8]) -> (it: Memchr2<'h>)
    ensures
        pending(it) == matches_from(haystack@, needle1, needle2, 0),
{
    memchr::memchr2_iter(needle1, needle2, haystack)
}

/// `Iterator::next` of `memchr::Memchr2`: yields the first pending position and drops it,
/// or yields `None` when nothing is pending.
#[verifier::external_body]
pub(crate) fn next_match(it: &mut Memchr2) -> (found: Option<usize>)
    ensures
        pending(*old(it)).len() == 0 ==> found is None && pending(*final(it)) == pending(*old(it)),
        pending(*old(it)).len() > 0 ==> found == Some(pending(*old(it))[0])
            && pending(*final(it)) == pending(*old(it)).skip(1),
{
    it.next()
}

} // verus!

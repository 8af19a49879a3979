//! Searching a byte string for a single byte.
use vstd::prelude::*;

verus! {

/// `i` is where `b` first occurs in `s`, or `s.len()` if it does not occur.
pub open spec fn is_first_pos(s: Seq<u8>, b: u8, i: int) -> bool {
    &&& 0 <= i <= s.len()
    &&& i < s.len() ==> s[i] == b
    &&& forall|j: int| 0 <= j < i ==> s[j] != b
}

/// The index of the first `b` in `s`, or `s.len()` if there is none.
pub open spec fn index_of(s: Seq<u8>, b: u8) -> int {
    choose|i: int| is_first_pos(s, b, i)
}

/// There is exactly one first position.
pub proof fn lemma_first_pos_unique(s: Seq<u8>, b: u8, i: int)
    requires
        is_first_pos(s, b, i),
    ensures
        index_of(s, b) == i,
{
    let k = index_of(s, b);
    assert(is_first_pos(s, b, k));
    if k < i {
        assert(s[k] == b);
    } else if i < k {
        assert(s[i] == b);
    }
}

/// Finds the first `b` in `s`; returns `s.len()` if there is none.
pub fn position(s: &[u8], b: u8) -> (r: usize)
    ensures
        r == index_of(s@, b),
        is_first_pos(s@, b, r as int),
{
    let mut i: usize = 0;
    while i < s.len()
        invariant
            i <= s@.len(),
            forall|j: int| 0 <= j < i ==> s@[j] != b,
        ensures
            i <= s@.len(),
            forall|j: int| 0 <= j < i ==> s@[j] != b,
            i < s@.len() ==> s@[i as int] == b,
        decreases s@.len() - i,
    {
        if s[i] == b {
            break;
        }
        i = i + 1;
    }
    proof {
        lemma_first_pos_unique(s@, b, i as int);
    }
    i
}

} // verus!

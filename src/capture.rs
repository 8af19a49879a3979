//! Turning the supplemental vector that the loader hands over into the
//! entries of a snapshot.
use vstd::prelude::*;
use crate::bytes::{index_of, position};
use crate::entries_view;

verus! {

/// The bytes of an entry up to its terminating NUL (all of it if it has none).
pub open spec fn c_string(e: Seq<u8>) -> Seq<u8> {
    e.subrange(0, index_of(e, 0u8))
}

/// What capture keeps of a vector: each entry cut at its NUL, in order, with
/// the empty ones left out.
pub open spec fn captured(vector: Seq<Seq<u8>>) -> Seq<Seq<u8>>
    decreases vector.len(),
{
    if vector.len() == 0 {
        seq![]
    } else {
        let rest = captured(vector.drop_last());
        let e = c_string(vector.last());
        if e.len() > 0 {
            rest.push(e)
        } else {
            rest
        }
    }
}

/// Takes the entries of the supplemental vector, those before its null
/// sentinel, and returns the entries of the snapshot: each cut at its first
/// NUL byte, the empty ones dropped, the order kept. The results borrow from
/// the input; no byte is copied.
pub fn capture<'a>(vector: &[&'a [u8]]) -> (r: Vec<&'a [u8]>)
    ensures
        entries_view(r@) == captured(entries_view(vector@)),
        forall|i: int| 0 <= i < r@.len() ==> r@[i]@.len() > 0 && !(#[trigger] r@[i])@.contains(0u8),
{
    let mut r: Vec<&'a [u8]> = Vec::new();
    let mut i: usize = 0;
    while i < vector.len()
        invariant
            i <= vector@.len(),
            entries_view(r@) == captured(entries_view(vector@).subrange(0, i as int)),
            forall|j: int| 0 <= j < r@.len() ==> r@[j]@.len() > 0 && !(#[trigger] r@[j])@.contains(0u8),
        decreases vector@.len() - i,
    {
        let e: &'a [u8] = vector[i];
        let n = position(e, 0u8);
        let ghost before = r@;
        if n > 0 {
            let c = vstd::slice::slice_subrange(e, 0, n);
            assert(!c@.contains(0u8)) by {
                assert forall|j: int| 0 <= j < c@.len() implies c@[j] != 0u8 by {
                    assert(c@[j] == e@[j]);
                }
            }
            r.push(c);
        }
        proof {
            let vs = entries_view(vector@);
            let pre = vs.subrange(0, i as int + 1);
            assert(pre.drop_last() =~= vs.subrange(0, i as int));
            assert(pre.last() == e@);
            if n > 0 {
                assert(entries_view(r@) =~= entries_view(before).push(c_string(e@)));
            } else {
                assert(entries_view(r@) =~= entries_view(before));
            }
        }
        i = i + 1;
    }
    proof {
        assert(entries_view(vector@).subrange(0, vector@.len() as int) =~= entries_view(vector@));
    }
    r
}

} // verus!

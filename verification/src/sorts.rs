//! Sorting by way of the binary heap.

use vstd::prelude::*;
use vstd::multiset::Multiset;
use vstd::multiset::group_multiset_axioms;
use vstd::seq_lib::{to_multiset_build, to_multiset_contains, to_multiset_len};
use crate::binary_heap::BinaryHeap;

verus! {

/// Whether the sequence is ordered from least to greatest.
pub open spec fn sorted(s: Seq<i64>) -> bool {
    forall|a: int, b: int| 0 <= a <= b < s.len() ==> s[a] <= s[b]
}

/// Sorts by building a heap over the elements and popping minima until the
/// heap is drained.
pub fn heap_sort(arr: Vec<i64>) -> (r: Vec<i64>)
    ensures
        sorted(r@),
        r@.to_multiset() == arr@.to_multiset(),
{
    let ghost m0 = arr@.to_multiset();
    let mut sorted_vec: Vec<i64> = Vec::with_capacity(arr.len());
    let mut heap = BinaryHeap::from_vec(arr);
    proof {
        broadcast use group_multiset_axioms, to_multiset_len,
            vstd::multiset::lemma_multiset_empty_len;

        assert(sorted_vec@.to_multiset().len() == 0);
        assert(sorted_vec@.to_multiset() =~= Multiset::<i64>::empty());
        assert(sorted_vec@.to_multiset().add(heap@) =~= m0);
    }
    while !heap.is_empty()
        invariant
            heap.wf(),
            sorted(sorted_vec@),
            sorted_vec@.to_multiset().add(heap@) == m0,
            forall|k: int, y: i64|
                0 <= k < sorted_vec@.len() && heap@.count(y) > 0 ==> sorted_vec@[k] <= y,
        decreases heap@.len(),
    {
        let ghost pre = sorted_vec@;
        let ghost hpre = heap@;
        let x = heap.pop().unwrap();
        sorted_vec.push(x);
        proof {
            broadcast use group_multiset_axioms, to_multiset_build, to_multiset_contains,
                to_multiset_len;

            assert(sorted_vec@ == pre.push(x));
            assert(sorted_vec@.to_multiset().add(heap@) =~= m0);
            assert forall|a: int, b: int|
                0 <= a <= b < sorted_vec@.len() implies sorted_vec@[a] <= sorted_vec@[b] by {
                if b == sorted_vec@.len() - 1 && a < b {
                    assert(pre[a] <= x);
                }
            }
            assert forall|k: int, y: i64|
                0 <= k < sorted_vec@.len() && heap@.count(y) > 0 implies sorted_vec@[k] <= y by {
                assert(hpre.count(y) > 0);
                if k < sorted_vec@.len() - 1 {
                    assert(pre[k] <= y);
                } else {
                    assert(x <= y);
                }
            }
        }
    }
    proof {
        broadcast use group_multiset_axioms, vstd::multiset::lemma_multiset_empty_len;

        assert(heap@.len() == 0);
        assert(sorted_vec@.to_multiset().add(heap@) =~= sorted_vec@.to_multiset());
    }
    sorted_vec
}

} // verus!

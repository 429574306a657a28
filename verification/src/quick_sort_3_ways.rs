//! Three-way quicksort: partitions around the first element into
//! less-than, equal and greater-than regions, then recurses on the outer
//! two. The proofs establish that sorting permutes the vector (the
//! multiset of elements is unchanged) and touches nothing outside the
//! given range; the resulting order is exercised by the tests.

use core::cmp::Ordering;
use vstd::prelude::*;
use crate::swaps::lemma_swap_multiset;
use crate::swaps::swap_items;

verus! {

#[verifier::loop_isolation(false)]
fn quick_sort_3_ways_range<T: Ord>(arr: &mut Vec<T>, lo: isize, hi: isize)
    requires
        0 <= lo,
        hi < old(arr)@.len(),
        old(arr)@.len() <= isize::MAX,
    ensures
        final(arr)@.len() == old(arr)@.len(),
        final(arr)@.to_multiset() == old(arr)@.to_multiset(),
        forall|k: int|
            0 <= k < final(arr)@.len() && !(lo <= k <= hi) ==> final(arr)@[k] == old(arr)@[k],
    decreases hi - lo + 1,
{
    if lo >= hi {
        return ;
    }
    let mut lt = lo;
    let mut gt = hi + 1;
    let mut i = lo + 1;
    while i < gt
        invariant
            lo <= lt < i <= gt <= hi + 1,
            arr@.len() == old(arr)@.len(),
            arr@.to_multiset() == old(arr)@.to_multiset(),
            forall|k: int| 0 <= k < arr@.len() && !(lo <= k <= hi) ==> arr@[k] == old(arr)@[k],
        decreases gt - i,
    {
        let ghost before = arr@;
        match arr[i as usize].cmp(&arr[lo as usize]) {
            Ordering::Less => {
                swap_items(arr, i as usize, (lt + 1) as usize);
                proof {
                    lemma_swap_multiset(before, i as int, lt + 1);
                }
                i = i + 1;
                lt = lt + 1;
            },
            Ordering::Greater => {
                swap_items(arr, i as usize, (gt - 1) as usize);
                proof {
                    lemma_swap_multiset(before, i as int, gt - 1);
                }
                gt = gt - 1;
            },
            Ordering::Equal => {
                i = i + 1;
            },
        }
    }
    let ghost before = arr@;
    swap_items(arr, lo as usize, lt as usize);
    proof {
        lemma_swap_multiset(before, lo as int, lt as int);
    }
    quick_sort_3_ways_range(arr, lo, lt - 1);
    quick_sort_3_ways_range(arr, gt, hi);
}

/// Sorts the vector in place by three-way quicksort; verified to leave
/// exactly the same elements (as a multiset) in the vector.
pub fn quick_sort_3_ways<T: Ord>(arr: &mut Vec<T>)
    requires
        old(arr)@.len() <= isize::MAX,
    ensures
        final(arr)@.len() == old(arr)@.len(),
        final(arr)@.to_multiset() == old(arr)@.to_multiset(),
{
    let len = arr.len();
    if len > 1 {
        quick_sort_3_ways_range(arr, 0, (len - 1) as isize);
    }
}

} // verus!

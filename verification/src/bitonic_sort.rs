//! Bitonic sorting network. `bitonic_sort` orders a power-of-two-sized
//! range ascending (direction 1) or descending (direction 0) by building
//! bitonic runs and merging them. The proofs establish that every step
//! permutes the vector (the multiset of elements is unchanged) and
//! touches nothing outside the given range; the resulting order is
//! exercised by the tests.

use vstd::prelude::*;
use vstd::std_specs::cmp::PartialOrdIs;
use vstd::std_specs::cmp::PartialOrdSpec;
use crate::swaps::lemma_swap_multiset;
use crate::swaps::swap_items;

verus! {

/// Orders the pair at `index1`, `index2`: ascending when `direction` is
/// 1, descending when it is 0. Either the vector is unchanged or exactly
/// those two elements trade places; where `T`'s comparison obeys its
/// specification, the elements trade places exactly when they are out of
/// order for the given direction.
pub fn comp_and_swap<T: Ord>(array: &mut Vec<T>, index1: i32, index2: i32, direction: i32)
    requires
        0 <= index1 < old(array)@.len(),
        0 <= index2 < old(array)@.len(),
    ensures
        final(array)@.len() == old(array)@.len(),
        final(array)@.to_multiset() == old(array)@.to_multiset(),
        final(array)@ == old(array)@ || final(array)@ == old(array)@.update(
            index1 as int,
            old(array)@[index2 as int],
        ).update(index2 as int, old(array)@[index1 as int]),
        T::obeys_partial_cmp_spec() ==> final(array)@ == (if (direction == 1 && old(
            array,
        )@[index1 as int].is_gt(&old(array)@[index2 as int])) || (direction == 0 && old(
            array,
        )@[index1 as int].is_lt(&old(array)@[index2 as int])) {
            old(array)@.update(index1 as int, old(array)@[index2 as int]).update(
                index2 as int,
                old(array)@[index1 as int],
            )
        } else {
            old(array)@
        }),
{
    let out_of_order = if direction == 1 {
        array[index1 as usize].gt(&array[index2 as usize])
    } else if direction == 0 {
        array[index1 as usize].lt(&array[index2 as usize])
    } else {
        false
    };
    if out_of_order {
        let ghost before = array@;
        swap_items(array, index1 as usize, index2 as usize);
        proof {
            lemma_swap_multiset(before, index1 as int, index2 as int);
        }
    }
}

/// Merges the bitonic run in `[low, low + length)` into a monotone one.
#[verifier::loop_isolation(false)]
pub fn bitonic_merge<T: Ord>(array: &mut Vec<T>, low: i32, length: i32, direction: i32)
    requires
        0 <= low,
        0 <= length,
        low + length <= old(array)@.len(),
        old(array)@.len() <= i32::MAX,
    ensures
        final(array)@.len() == old(array)@.len(),
        final(array)@.to_multiset() == old(array)@.to_multiset(),
        forall|k: int|
            0 <= k < final(array)@.len() && !(low <= k < low + length) ==> final(array)@[k]
                == old(array)@[k],
    decreases length,
{
    if length > 1 {
        let middle = length / 2;
        let mut i = low;
        while i < low + middle
            invariant
                low <= i <= low + middle,
                array@.len() == old(array)@.len(),
                array@.to_multiset() == old(array)@.to_multiset(),
                forall|k: int|
                    0 <= k < array@.len() && !(low <= k < low + length) ==> array@[k] == old(
                        array,
                    )@[k],
            decreases low + middle - i,
        {
            comp_and_swap(array, i, i + middle, direction);
            i = i + 1;
        }
        bitonic_merge(array, low, middle, direction);
        bitonic_merge(array, low + middle, middle, direction);
    }
}

/// Sorts the range `[low, low + length)` (its length a power of two):
/// ascending for direction 1, descending for direction 0.
pub fn bitonic_sort<T: Ord>(array: &mut Vec<T>, low: i32, length: i32, direction: i32)
    requires
        0 <= low,
        0 <= length,
        low + length <= old(array)@.len(),
        old(array)@.len() <= i32::MAX,
    ensures
        final(array)@.len() == old(array)@.len(),
        final(array)@.to_multiset() == old(array)@.to_multiset(),
        forall|k: int|
            0 <= k < final(array)@.len() && !(low <= k < low + length) ==> final(array)@[k]
                == old(array)@[k],
    decreases length,
{
    if length > 1 {
        let middle = length / 2;
        bitonic_sort(array, low, middle, 1);
        bitonic_sort(array, low + middle, middle, 0);
        bitonic_merge(array, low, length, direction);
    }
}

} // verus!

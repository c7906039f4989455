//! Bubble sort.

use vstd::prelude::*;
use crate::order::{at_most, lemma_total_order_basics, sorted, total_order};
use crate::sort::{copy_of, lemma_swap_keeps_elements};

verus! {

/// Exchanges the elements at two places of `array`.
fn exchange<T>(array: &mut Vec<T>, i: usize, j: usize) where T: PartialOrd + Copy
    requires
        i < old(array).len(),
        j < old(array).len(),
    ensures
        final(array)@ == old(array)@.update(i as int, old(array)@[j as int]).update(
            j as int,
            old(array)@[i as int],
        ),
{
    let temp = array[i];
    array[i] = array[j];
    array[j] = temp;
}

/// A sorted copy of `array`; `array` itself is left as it is.
pub fn sort<T>(array: &Vec<T>) -> (sorted_copy: Vec<T>) where T: PartialOrd + Copy
    ensures
        sorted_copy@.to_multiset() == array@.to_multiset(),
        total_order::<T>() ==> sorted(sorted_copy@),
{
    let mut sorted_copy = copy_of(array);
    sort_mut(&mut sorted_copy);
    sorted_copy
}

/// Sorts `array` in place by exchanging neighbours that are out of order, pass
/// after pass, until a pass exchanges nothing.
pub fn sort_mut<T>(array: &mut Vec<T>) where T: PartialOrd + Copy
    ensures
        final(array)@.to_multiset() == old(array)@.to_multiset(),
        total_order::<T>() ==> sorted(final(array)@),
{
    let mut exchanged: bool;
    let mut pass: usize = 1;
    let len = array.len();

    if len < 2 {
        return;
    }
    loop
        invariant
            1 <= pass <= len,
            array.len() == len,
            array@.to_multiset() == old(array)@.to_multiset(),
            total_order::<T>() ==> forall|p: int, q: int|
                0 <= p < q < len && len - pass < q ==> at_most(
                    #[trigger] array@[p],
                    #[trigger] array@[q],
                ),
        ensures
            array@.to_multiset() == old(array)@.to_multiset(),
            total_order::<T>() ==> sorted(array@),
        decreases len - pass,
    {
        exchanged = false;

        let mut i: usize = 0;
        while i < len - pass
            invariant
                1 <= pass <= len,
                i <= len - pass,
                array.len() == len,
                array@.to_multiset() == old(array)@.to_multiset(),
                total_order::<T>() ==> forall|p: int, q: int|
                    0 <= p < q < len && len - pass < q ==> at_most(
                        #[trigger] array@[p],
                        #[trigger] array@[q],
                    ),
                total_order::<T>() ==> forall|p: int|
                    0 <= p < i ==> at_most(#[trigger] array@[p], array@[i as int]),
                total_order::<T>() && !exchanged ==> forall|p: int, q: int|
                    0 <= p < q <= i ==> at_most(#[trigger] array@[p], #[trigger] array@[q]),
                exchanged ==> pass < len,
            decreases len - pass - i,
        {
            let ghost before = array@;
            proof {
                if total_order::<T>() {
                    lemma_total_order_basics(before[i as int], before[i + 1]);
                }
            }
            if array[i] > array[i + 1] {
                exchange(array, i, i + 1);
                exchanged = true;
                proof {
                    lemma_swap_keeps_elements(before, i as int, i + 1);
                }
            }
            i += 1;
        }

        if !exchanged {
            break;
        }
        pass += 1;
    }
}

} // verus!

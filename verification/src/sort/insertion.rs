//! Insertion sort.

use vstd::prelude::*;
use crate::order::{at_most, lemma_total_order_basics, less, sorted, total_order};
use crate::sort::{copy_of, lemma_swap_keeps_elements};

verus! {

/// A sorted copy of `array`; `array` itself is left as it is.
pub fn sort<T>(array: &Vec<T>) -> (sorted_copy: Vec<T>) where T: PartialOrd + Copy
    ensures
        sorted_copy@.to_multiset() == array@.to_multiset(),
        total_order::<T>() ==> sorted(sorted_copy@),
{
    let mut sorted_copy = copy_of(array);
    sort_mut(&mut sorted_copy);
    sorted_copy
}

/// Sorts `array` in place: takes the elements one by one and moves each down
/// past the larger ones before it.
pub fn sort_mut<T>(array: &mut Vec<T>) where T: PartialOrd + Copy
    ensures
        final(array)@.to_multiset() == old(array)@.to_multiset(),
        total_order::<T>() ==> sorted(final(array)@),
{
    let len = array.len();
    if len < 2 {
        return;
    }
    for i in 1..len
        invariant
            array.len() == len,
            array@.to_multiset() == old(array)@.to_multiset(),
            total_order::<T>() ==> sorted(array@.take(i as int)),
    {
        let key = array[i];
        let mut j = i;
        proof {
            assert(array@.update(i as int, key) =~= array@);
            if total_order::<T>() {
                assert forall|p: int, q: int| 0 <= p < q <= i && p != i && q != i implies at_most(
                    #[trigger] array@[p],
                    #[trigger] array@[q],
                ) by {
                    assert(at_most(array@.take(i as int)[p], array@.take(i as int)[q]));
                }
            }
        }

        while j > 0 && array[j - 1] > key
            invariant
                j <= i < len,
                array.len() == len,
                array@.update(j as int, key).to_multiset() == old(array)@.to_multiset(),
                total_order::<T>() ==> forall|p: int, q: int|
                    0 <= p < q <= i && p != j && q != j ==> at_most(
                        #[trigger] array@[p],
                        #[trigger] array@[q],
                    ),
                total_order::<T>() ==> forall|q: int|
                    j < q <= i ==> less(key, #[trigger] array@[q]),
            decreases j,
        {
            let ghost before = array@;
            proof {
                let filled = before.update(j as int, key);
                lemma_swap_keeps_elements(filled, j - 1, j as int);
                assert(before.update(j as int, before[j - 1]).update(j - 1, key)
                    =~= filled.update(j - 1, filled[j as int]).update(j as int, filled[j - 1]));
                if total_order::<T>() {
                    lemma_total_order_basics(before[j - 1], key);
                }
            }
            array[j] = array[j - 1];
            j -= 1;
        }

        proof {
            if total_order::<T>() {
                let placed = array@.update(j as int, key);
                assert forall|p: int, q: int| 0 <= p < q < i + 1 implies at_most(
                    #[trigger] placed.take(i + 1)[p],
                    #[trigger] placed.take(i + 1)[q],
                ) by {
                    if q == j {
                        lemma_total_order_basics(array@[j - 1], key);
                        if p < j - 1 {
                            assert(at_most(array@[p], array@[j - 1]));
                        }
                    } else if p == j {
                        assert(less(key, array@[q]));
                    } else {
                        assert(at_most(array@[p], array@[q]));
                    }
                }
            }
        }
        array[j] = key;
    }
    proof {
        assert(array@.take(len as int) =~= array@);
    }
}

} // verus!

//! Four sorts with one contract: the result holds the elements of the input,
//! each as often as the input does, and where the element type's comparison
//! is a total order the result is in ascending order.

pub mod bubble;
pub mod insertion;
pub mod merge;
pub mod quick;

use vstd::prelude::*;
use crate::order::{at_most, equivalent, lemma_total_order_basics, sorted, total_order};

verus! {

/// Exchanging two elements of a sequence changes nothing about which elements
/// it holds, nor how often.
pub proof fn lemma_swap_keeps_elements<T>(s: Seq<T>, i: int, j: int)
    requires
        0 <= i < s.len(),
        0 <= j < s.len(),
    ensures
        s.update(i, s[j]).update(j, s[i]).to_multiset() == s.to_multiset(),
{
    broadcast use vstd::seq_lib::to_multiset_update;
    broadcast use vstd::multiset::group_multiset_axioms;
    let once = s.update(i, s[j]);
    assert(once.to_multiset() == s.to_multiset().insert(s[j]).remove(s[i]));
    assert(once.update(j, s[i]).to_multiset() == once.to_multiset().insert(s[i]).remove(once[j]));
    assert(s.to_multiset().count(s[i]) > 0) by {
        broadcast use vstd::seq_lib::to_multiset_contains;
        assert(s.contains(s[i]));
    }
    assert(s.to_multiset().count(s[j]) > 0) by {
        broadcast use vstd::seq_lib::to_multiset_contains;
        assert(s.contains(s[j]));
    }
    assert(once.update(j, s[i]).to_multiset() =~= s.to_multiset());
}

/// A copy of `array`, element by element.
pub(crate) fn copy_of<T>(array: &Vec<T>) -> (copy: Vec<T>) where T: Copy
    ensures
        copy@ == array@,
{
    let mut copy: Vec<T> = Vec::with_capacity(array.len());
    let mut i: usize = 0;
    while i < array.len()
        invariant
            i <= array.len(),
            copy@ == array@.take(i as int),
        decreases array.len() - i,
    {
        copy.push(array[i]);
        i += 1;
    }
    copy
}

/// The order tells any two different values apart: only a value itself
/// compares as equal to it.
pub open spec fn order_tells_apart<T: PartialOrd>() -> bool {
    forall|a: T, b: T| #![trigger equivalent(a, b)] equivalent(a, b) ==> a == b
}

/// The last element of a sorted sequence is at least every element that the
/// sequence holds.
proof fn lemma_last_is_largest<T: PartialOrd>(s: Seq<T>, x: T)
    requires
        total_order::<T>(),
        sorted(s),
        s.contains(x),
    ensures
        at_most(x, s.last()),
{
    let k = choose|k: int| 0 <= k < s.len() && s[k] == x;
    if k < s.len() - 1 {
        assert(at_most(s[k], s[s.len() - 1]));
    } else {
        lemma_total_order_basics(x, x);
    }
}

/// There is one way to put given elements in ascending order: two sorted
/// sequences that hold the same elements, each as often as the other, are the
/// same sequence. So all the sorts of this library return the same result.
pub proof fn lemma_sorted_is_unique<T: PartialOrd>(first: Seq<T>, second: Seq<T>)
    requires
        total_order::<T>(),
        order_tells_apart::<T>(),
        sorted(first),
        sorted(second),
        first.to_multiset() == second.to_multiset(),
    ensures
        first == second,
    decreases first.len(),
{
    broadcast use vstd::seq_lib::to_multiset_len;
    broadcast use vstd::seq_lib::to_multiset_contains;
    broadcast use vstd::seq_lib::to_multiset_remove;

    assert(first.len() == first.to_multiset().len());
    assert(second.len() == second.to_multiset().len());
    if first.len() == 0 {
        assert(first =~= second);
    } else {
        let x = first.last();
        let y = second.last();
        assert(first.contains(x));
        assert(second.contains(y));
        assert(second.to_multiset().count(x) > 0);
        assert(first.to_multiset().count(y) > 0);
        lemma_last_is_largest(second, x);
        lemma_last_is_largest(first, y);
        lemma_total_order_basics(x, y);
        lemma_total_order_basics(y, x);
        assert(equivalent(x, y));
        assert(x == y);
        let first_rest = first.drop_last();
        let second_rest = second.drop_last();
        assert(first.remove(first.len() - 1) =~= first_rest);
        assert(second.remove(second.len() - 1) =~= second_rest);
        assert(first_rest.to_multiset() == first.to_multiset().remove(x));
        assert(second_rest.to_multiset() == second.to_multiset().remove(y));
        assert(sorted(first_rest)) by {
            assert forall|i: int, j: int| 0 <= i < j < first_rest.len() implies at_most(
                #[trigger] first_rest[i],
                #[trigger] first_rest[j],
            ) by {
                assert(at_most(first[i], first[j]));
            }
        }
        assert(sorted(second_rest)) by {
            assert forall|i: int, j: int| 0 <= i < j < second_rest.len() implies at_most(
                #[trigger] second_rest[i],
                #[trigger] second_rest[j],
            ) by {
                assert(at_most(second[i], second[j]));
            }
        }
        lemma_sorted_is_unique(first_rest, second_rest);
        assert(first =~= first_rest.push(x));
        assert(second =~= second_rest.push(y));
    }
}

} // verus!

//! Binary search.
//!
//! Both functions halve the part of the array in which the target may still
//! be. On an array in ascending order they find the target exactly when it
//! is there; where it occurs several times they report one of the places,
//! not necessarily the first. On an array in no order a hit is still a hit,
//! but a miss says nothing.

use vstd::prelude::*;
use crate::order::{
    at_most, equality_follows_order, equality_specified, greater, lemma_equivalent_bounds,
    lemma_total_order_basics, less, same, sorted, total_order,
};

verus! {

/// The comparison of `T` is a total order with which `==` agrees.
pub open spec fn searchable<T: PartialOrd>() -> bool {
    total_order::<T>() && equality_follows_order::<T>()
}

/// No element from position `from` up to, not including, position `to` equals
/// `target`.
pub open spec fn absent_between<T: PartialOrd>(
    array: Seq<T>,
    target: T,
    from: int,
    to: int,
) -> bool {
    forall|k: int| from <= k < to ==> !same(#[trigger] array[k], target)
}

/// In a sorted array, an element smaller than the target has no match at or
/// before it.
proof fn lemma_absent_before<T: PartialOrd>(array: Seq<T>, target: T, mid: int)
    requires
        searchable::<T>(),
        sorted(array),
        0 <= mid < array.len(),
        less(array[mid], target),
    ensures
        absent_between(array, target, 0, mid + 1),
{
    assert forall|k: int| 0 <= k < mid + 1 implies !same(#[trigger] array[k], target) by {
        if same(array[k], target) {
            lemma_equivalent_bounds(array[k], target);
            lemma_total_order_basics(array[mid], target);
            lemma_total_order_basics(array[k], array[k]);
            assert(at_most(target, array[k]) && at_most(array[k], array[mid]));
            assert(at_most(target, array[mid]));
        }
    }
}

/// In a sorted array, an element larger than the target has no match at or
/// after it.
proof fn lemma_absent_after<T: PartialOrd>(array: Seq<T>, target: T, mid: int)
    requires
        searchable::<T>(),
        sorted(array),
        0 <= mid < array.len(),
        greater(array[mid], target),
    ensures
        absent_between(array, target, mid, array.len() as int),
{
    assert forall|k: int| mid <= k < array.len() implies !same(#[trigger] array[k], target) by {
        if same(array[k], target) {
            lemma_equivalent_bounds(array[k], target);
            lemma_total_order_basics(array[mid], target);
            lemma_total_order_basics(array[k], array[k]);
            assert(at_most(array[mid], array[k]) && at_most(array[k], target));
            assert(at_most(array[mid], target));
        }
    }
}

/// A place in `array` where `target` stands, or `None`.
///
/// A place that is returned holds an element equal to `target`. On a sorted
/// array `None` means that no element equals `target`.
pub fn index_of<T>(target: T, array: &Vec<T>) -> (r: Option<usize>) where T: PartialOrd + Clone
    ensures
        r matches Some(i) ==> i < array.len(),
        equality_specified::<T>() ==> (r matches Some(i) ==> same(array@[i as int], target)),
        searchable::<T>() && sorted(array@) ==> (r is None ==> absent_between(
            array@,
            target,
            0,
            array.len() as int,
        )),
{
    if array.is_empty() {
        return None;
    }
    let ghost in_order = searchable::<T>() && sorted(array@);
    let mut base: usize = 0;
    let mut size: usize = array.len();

    while size > 1
        invariant
            1 <= size,
            base + size <= array.len(),
            in_order == (searchable::<T>() && sorted(array@)),
            in_order ==> absent_between(array@, target, 0, base as int),
            in_order ==> absent_between(array@, target, base + size, array.len() as int),
        decreases size,
    {
        let half = size / 2;
        let mid = base + half;

        proof {
            if in_order {
                lemma_total_order_basics(array@[mid as int], target);
            }
        }
        if array[mid] == target {
            return Some(mid);
        } else if array[mid] < target {
            proof {
                if in_order {
                    lemma_absent_before(array@, target, mid as int);
                }
            }
            base = mid;
        } else if array[mid] > target {
            proof {
                if in_order {
                    lemma_absent_after(array@, target, mid as int);
                }
            }
        } else {
            return None;
        }

        size -= half;
    }

    if array[base] == target {
        Some(base)
    } else {
        None
    }
}

/// `target` itself if `array` holds an element equal to it, or `None`.
///
/// What is returned is the value that was asked for. On a sorted array `None`
/// means that no element equals `target`.
pub fn search<T>(target: T, array: &Vec<T>) -> (r: Option<T>) where T: PartialOrd + Clone
    ensures
        r matches Some(found) ==> found == target,
        equality_specified::<T>() ==> (r is Some ==> exists|i: int|
            0 <= i < array.len() && same(#[trigger] array@[i], target)),
        searchable::<T>() && sorted(array@) ==> (r is None ==> absent_between(
            array@,
            target,
            0,
            array.len() as int,
        )),
{
    search_between(target, array, 0, array.len())
}

/// Looks for `target` among the elements from position `from` up to, not
/// including, position `to`: compares it with the middle one and goes on in
/// the half where it may be.
fn search_between<T>(target: T, array: &Vec<T>, from: usize, to: usize) -> (r: Option<T>) where
    T: PartialOrd + Clone,

    requires
        from <= to <= array.len(),
    ensures
        r matches Some(found) ==> found == target,
        equality_specified::<T>() ==> (r is Some ==> exists|i: int|
            from <= i < to && same(#[trigger] array@[i], target)),
        searchable::<T>() && sorted(array@) ==> (r is None ==> absent_between(
            array@,
            target,
            from as int,
            to as int,
        )),
    decreases to - from,
{
    if from == to {
        return None;
    }
    if to - from == 1 {
        if array[from] == target {
            return Some(target);
        }
        return None;
    }
    let half = from + (to - from) / 2;
    proof {
        if searchable::<T>() && sorted(array@) {
            lemma_total_order_basics(array@[half as int], target);
        }
    }
    if array[half] == target {
        Some(target)
    } else if array[half] > target {
        proof {
            if searchable::<T>() && sorted(array@) {
                lemma_absent_after(array@, target, half as int);
            }
        }
        search_between(target, array, from, half)
    } else if array[half] < target {
        proof {
            if searchable::<T>() && sorted(array@) {
                lemma_absent_before(array@, target, half as int);
            }
        }
        search_between(target, array, half, to)
    } else {
        None
    }
}

} // verus!

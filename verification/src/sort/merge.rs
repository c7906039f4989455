//! Merge sort.

use vstd::prelude::*;
use crate::order::{at_most, lemma_total_order_basics, sorted, total_order};
use crate::sort::copy_of;

verus! {

/// Writes the elements of `left` and `right` into `array`, taking at each step
/// the smaller of the two front elements, and the left one where neither is
/// smaller.
fn merge<T>(left: &Vec<T>, right: &Vec<T>, array: &mut Vec<T>) where T: PartialOrd + Copy
    requires
        old(array).len() == left.len() + right.len(),
    ensures
        final(array).len() == old(array).len(),
        final(array)@.to_multiset() == left@.to_multiset().add(right@.to_multiset()),
        total_order::<T>() && sorted(left@) && sorted(right@) ==> sorted(final(array)@),
{
    broadcast use vstd::seq_lib::to_multiset_build;
    broadcast use vstd::multiset::group_multiset_axioms;

    let mut left_index: usize = 0;
    let mut right_index: usize = 0;
    let mut index: usize = 0;
    let ghost in_order = total_order::<T>() && sorted(left@) && sorted(right@);

    proof {
        broadcast use vstd::seq_lib::to_multiset_len;
        broadcast use vstd::multiset::lemma_multiset_empty_len;
        assert(array@.take(0).to_multiset().len() == 0);
        assert(left@.take(0).to_multiset().len() == 0);
        assert(right@.take(0).to_multiset().len() == 0);
        assert(array@.take(0).to_multiset() =~= left@.take(0).to_multiset().add(
            right@.take(0).to_multiset(),
        ));
    }
    while left_index < left.len() && right_index < right.len()
        invariant
            left_index <= left.len(),
            right_index <= right.len(),
            index == left_index + right_index,
            array.len() == left.len() + right.len(),
            in_order == (total_order::<T>() && sorted(left@) && sorted(right@)),
            merged_so_far(left@, right@, array@, left_index as int, right_index as int, in_order),
        decreases left.len() + right.len() - index,
    {
        let ghost before = array@;
        proof {
            if in_order {
                lemma_total_order_basics(left@[left_index as int], right@[right_index as int]);
            }
        }
        if left[left_index] <= right[right_index] {
            array[index] = left[left_index];
            proof {
                lemma_take_left(
                    left@,
                    right@,
                    before,
                    left_index as int,
                    right_index as int,
                    in_order,
                );
            }
            left_index += 1;
        } else {
            array[index] = right[right_index];
            proof {
                lemma_take_right(
                    left@,
                    right@,
                    before,
                    left_index as int,
                    right_index as int,
                    in_order,
                );
            }
            right_index += 1;
        }

        index += 1;
    }

    while left_index < left.len()
        invariant
            left_index <= left.len(),
            right_index <= right.len(),
            index == left_index + right_index,
            array.len() == left.len() + right.len(),
            in_order == (total_order::<T>() && sorted(left@) && sorted(right@)),
            merged_so_far(left@, right@, array@, left_index as int, right_index as int, in_order),
            left_index == left.len() || right_index == right.len(),
        decreases left.len() - left_index,
    {
        proof {
            lemma_take_left(
                left@,
                right@,
                array@,
                left_index as int,
                right_index as int,
                in_order,
            );
        }
        array[index] = left[left_index];
        left_index += 1;
        index += 1;
    }
    while right_index < right.len()
        invariant
            left_index == left.len(),
            right_index <= right.len(),
            index == left_index + right_index,
            array.len() == left.len() + right.len(),
            in_order == (total_order::<T>() && sorted(left@) && sorted(right@)),
            merged_so_far(left@, right@, array@, left_index as int, right_index as int, in_order),
        decreases right.len() - right_index,
    {
        proof {
            lemma_take_right(
                left@,
                right@,
                array@,
                left_index as int,
                right_index as int,
                in_order,
            );
        }
        array[index] = right[right_index];
        right_index += 1;
        index += 1;
    }
    proof {
        assert(array@.take(index as int) =~= array@);
        assert(left@.take(left_index as int) =~= left@);
        assert(right@.take(right_index as int) =~= right@);
    }
}

/// The first `li + ri` elements of `array` are the first `li` of `left` and the
/// first `ri` of `right`; where the inputs are in order, so is that part of
/// `array`, and none of it is larger than what is still to come.
spec fn merged_so_far<T: PartialOrd>(
    left: Seq<T>,
    right: Seq<T>,
    array: Seq<T>,
    li: int,
    ri: int,
    in_order: bool,
) -> bool {
    &&& 0 <= li <= left.len()
    &&& 0 <= ri <= right.len()
    &&& array.len() == left.len() + right.len()
    &&& array.take(li + ri).to_multiset() == left.take(li).to_multiset().add(
        right.take(ri).to_multiset(),
    )
    &&& in_order ==> {
        &&& sorted(array.take(li + ri))
        &&& forall|p: int, q: int|
            0 <= p < li + ri && li <= q < left.len() ==> at_most(
                #[trigger] array[p],
                #[trigger] left[q],
            )
        &&& forall|p: int, q: int|
            0 <= p < li + ri && ri <= q < right.len() ==> at_most(
                #[trigger] array[p],
                #[trigger] right[q],
            )
    }
}

/// Taking the front element of `left` next keeps what has been merged in
/// order, provided that nothing still to come from `right` is smaller.
proof fn lemma_take_left<T: PartialOrd>(
    left: Seq<T>,
    right: Seq<T>,
    array: Seq<T>,
    li: int,
    ri: int,
    in_order: bool,
)
    requires
        merged_so_far(left, right, array, li, ri, in_order),
        li < left.len(),
        in_order ==> total_order::<T>() && sorted(left) && sorted(right),
        in_order && ri < right.len() ==> at_most(left[li], right[ri]),
    ensures
        merged_so_far(left, right, array.update(li + ri, left[li]), li + 1, ri, in_order),
{
    broadcast use vstd::seq_lib::to_multiset_build;
    broadcast use vstd::multiset::group_multiset_axioms;

    let x = left[li];
    let next = array.update(li + ri, x);
    assert(next.take(li + ri + 1) =~= array.take(li + ri).push(x));
    assert(left.take(li + 1) =~= left.take(li).push(x));
    assert(next.take(li + ri + 1).to_multiset() =~= left.take(li + 1).to_multiset().add(
        right.take(ri).to_multiset(),
    ));
    if in_order {
        lemma_total_order_basics(x, x);
        assert forall|p: int, q: int| 0 <= p < q < li + ri + 1 implies at_most(
            #[trigger] next.take(li + ri + 1)[p],
            #[trigger] next.take(li + ri + 1)[q],
        ) by {
            if q == li + ri {
                assert(at_most(array[p], left[li]));
            } else {
                assert(at_most(array.take(li + ri)[p], array.take(li + ri)[q]));
            }
        }
        assert forall|p: int, q: int|
            0 <= p < li + ri + 1 && li + 1 <= q < left.len() implies at_most(
            #[trigger] next[p],
            #[trigger] left[q],
        ) by {
            if p == li + ri {
                assert(at_most(left[li], left[q]));
            } else {
                assert(at_most(array[p], left[q]));
            }
        }
        assert forall|p: int, q: int| 0 <= p < li + ri + 1 && ri <= q < right.len() implies at_most(
            #[trigger] next[p],
            #[trigger] right[q],
        ) by {
            if p == li + ri {
                if q > ri {
                    assert(at_most(right[ri], right[q]));
                }
                assert(at_most(left[li], right[ri]));
            } else {
                assert(at_most(array[p], right[q]));
            }
        }
    }
}

/// Taking the front element of `right` next keeps what has been merged in
/// order, provided that nothing still to come from `left` is smaller.
proof fn lemma_take_right<T: PartialOrd>(
    left: Seq<T>,
    right: Seq<T>,
    array: Seq<T>,
    li: int,
    ri: int,
    in_order: bool,
)
    requires
        merged_so_far(left, right, array, li, ri, in_order),
        ri < right.len(),
        in_order ==> total_order::<T>() && sorted(left) && sorted(right),
        in_order && li < left.len() ==> at_most(right[ri], left[li]),
    ensures
        merged_so_far(left, right, array.update(li + ri, right[ri]), li, ri + 1, in_order),
{
    broadcast use vstd::seq_lib::to_multiset_build;
    broadcast use vstd::multiset::group_multiset_axioms;

    let x = right[ri];
    let next = array.update(li + ri, x);
    assert(next.take(li + ri + 1) =~= array.take(li + ri).push(x));
    assert(right.take(ri + 1) =~= right.take(ri).push(x));
    assert(next.take(li + ri + 1).to_multiset() =~= left.take(li).to_multiset().add(
        right.take(ri + 1).to_multiset(),
    ));
    if in_order {
        lemma_total_order_basics(x, x);
        assert forall|p: int, q: int| 0 <= p < q < li + ri + 1 implies at_most(
            #[trigger] next.take(li + ri + 1)[p],
            #[trigger] next.take(li + ri + 1)[q],
        ) by {
            if q == li + ri {
                assert(at_most(array[p], right[ri]));
            } else {
                assert(at_most(array.take(li + ri)[p], array.take(li + ri)[q]));
            }
        }
        assert forall|p: int, q: int|
            0 <= p < li + ri + 1 && ri + 1 <= q < right.len() implies at_most(
            #[trigger] next[p],
            #[trigger] right[q],
        ) by {
            if p == li + ri {
                assert(at_most(right[ri], right[q]));
            } else {
                assert(at_most(array[p], right[q]));
            }
        }
        assert forall|p: int, q: int| 0 <= p < li + ri + 1 && li <= q < left.len() implies at_most(
            #[trigger] next[p],
            #[trigger] left[q],
        ) by {
            if p == li + ri {
                if q > li {
                    assert(at_most(left[li], left[q]));
                }
                assert(at_most(right[ri], left[li]));
            } else {
                assert(at_most(array[p], left[q]));
            }
        }
    }
}

/// Sorts `array`: halves it, sorts each half, and merges the two.
fn divide_list<T>(array: &mut Vec<T>) where T: PartialOrd + Copy
    ensures
        final(array).len() == old(array).len(),
        final(array)@.to_multiset() == old(array)@.to_multiset(),
        total_order::<T>() ==> sorted(final(array)@),
    decreases old(array).len(),
{
    broadcast use vstd::seq_lib::lemma_multiset_commutative;

    let len = array.len();

    if len > 1 {
        let mid = len / 2;
        let mut left: Vec<T> = Vec::with_capacity(mid);
        let mut right: Vec<T> = Vec::with_capacity(len - mid);

        for i in 0..mid
            invariant
                mid <= len,
                array.len() == len,
                left@ == array@.subrange(0, i as int),
        {
            left.push(array[i]);
        }
        for i in mid..len
            invariant
                mid <= len,
                array.len() == len,
                right@ == array@.subrange(mid as int, i as int),
        {
            right.push(array[i]);
        }
        proof {
            assert(array@ =~= left@ + right@);
        }

        divide_list(&mut left);
        divide_list(&mut right);

        merge(&left, &right, array);
    }
}

/// A sorted copy of `a`; `a` itself is left as it is.
pub fn sort<T>(a: &Vec<T>) -> (sorted_copy: Vec<T>) where T: PartialOrd + Copy
    ensures
        sorted_copy@.to_multiset() == a@.to_multiset(),
        total_order::<T>() ==> sorted(sorted_copy@),
{
    let mut sorted_copy = copy_of(a);
    sort_mut(&mut sorted_copy);
    sorted_copy
}

/// Sorts `a` in place by merging sorted halves.
pub fn sort_mut<T>(a: &mut Vec<T>) where T: PartialOrd + Copy
    ensures
        final(a)@.to_multiset() == old(a)@.to_multiset(),
        total_order::<T>() ==> sorted(final(a)@),
{
    let size: usize = a.len();
    if size < 2 {
        return;
    }
    divide_list(a);
}

} // verus!

//! Quick sort.

use vstd::prelude::*;
use crate::order::{at_most, lemma_total_order_basics, sorted, total_order};
use crate::sort::{copy_of, lemma_swap_keeps_elements};

verus! {

/// `after` is `before` with the elements from position `from` up to, not
/// including, position `to` put in some other order, and nothing else touched.
pub open spec fn rearranged_between<T>(before: Seq<T>, after: Seq<T>, from: int, to: int) -> bool {
    &&& after.len() == before.len()
    &&& 0 <= from <= to <= before.len()
    &&& forall|k: int| 0 <= k < from || to <= k < before.len() ==> after[k] == before[k]
    &&& after.subrange(from, to).to_multiset() == before.subrange(from, to).to_multiset()
}

/// The elements of `s` from position `from` up to, not including, position
/// `to` are in ascending order.
pub open spec fn sorted_between<T: PartialOrd>(s: Seq<T>, from: int, to: int) -> bool {
    forall|p: int, q: int| from <= p < q < to ==> at_most(#[trigger] s[p], #[trigger] s[q])
}

/// Nothing before position `pivot` is larger than the element there, and
/// nothing after it is smaller.
pub open spec fn split_around<T: PartialOrd>(s: Seq<T>, from: int, pivot: int, to: int) -> bool {
    &&& forall|k: int| from <= k < pivot ==> at_most(#[trigger] s[k], s[pivot])
    &&& forall|k: int| pivot < k < to ==> at_most(s[pivot], #[trigger] s[k])
}

/// Exchanging two elements inside a range rearranges that range.
proof fn lemma_swap_rearranges<T>(s: Seq<T>, i: int, j: int, from: int, to: int)
    requires
        0 <= from <= i < to <= s.len(),
        from <= j < to,
    ensures
        rearranged_between(s, s.update(i, s[j]).update(j, s[i]), from, to),
{
    let swapped = s.update(i, s[j]).update(j, s[i]);
    let part = s.subrange(from, to);
    lemma_swap_keeps_elements(part, i - from, j - from);
    assert(swapped.subrange(from, to) =~= part.update(i - from, part[j - from]).update(
        j - from,
        part[i - from],
    ));
}

/// Rearranging a range also rearranges every range around it.
proof fn lemma_rearranged_wider<T>(
    before: Seq<T>,
    after: Seq<T>,
    from: int,
    to: int,
    wide_from: int,
    wide_to: int,
)
    requires
        rearranged_between(before, after, from, to),
        0 <= wide_from <= from,
        to <= wide_to <= before.len(),
    ensures
        rearranged_between(before, after, wide_from, wide_to),
{
    broadcast use vstd::seq_lib::lemma_multiset_commutative;

    let head = before.subrange(wide_from, from);
    let tail = before.subrange(to, wide_to);
    assert(after.subrange(wide_from, from) =~= head);
    assert(after.subrange(to, wide_to) =~= tail);
    assert(before.subrange(wide_from, wide_to) =~= (head + before.subrange(from, to)) + tail);
    assert(after.subrange(wide_from, wide_to) =~= (head + after.subrange(from, to)) + tail);
}

/// Every element of a rearranged range was in the range before.
proof fn lemma_rearranged_element<T>(before: Seq<T>, after: Seq<T>, from: int, to: int, k: int)
    requires
        rearranged_between(before, after, from, to),
        from <= k < to,
    ensures
        exists|origin: int| from <= origin < to && before[origin] == after[k],
{
    broadcast use vstd::seq_lib::to_multiset_contains;

    let now = after.subrange(from, to);
    let then = before.subrange(from, to);
    assert(now[k - from] == after[k]);
    assert(now.contains(after[k]));
    assert(now.to_multiset().count(after[k]) > 0);
    assert(then.to_multiset().count(after[k]) > 0);
    assert(then.contains(after[k]));
    let at = choose|at: int| 0 <= at < then.len() && then[at] == after[k];
    assert(before[from + at] == after[k]);
}

/// Rearranging the part before the pivot, or the part after it, leaves the
/// range split around the pivot.
proof fn lemma_split_survives<T: PartialOrd>(
    before: Seq<T>,
    after: Seq<T>,
    from: int,
    pivot: int,
    to: int,
    part_from: int,
    part_to: int,
)
    requires
        0 <= from <= pivot < to <= before.len(),
        split_around(before, from, pivot, to),
        rearranged_between(before, after, part_from, part_to),
        (from <= part_from && part_to <= pivot) || (pivot < part_from && part_to <= to),
    ensures
        split_around(after, from, pivot, to),
{
    assert forall|k: int| from <= k < pivot implies at_most(#[trigger] after[k], after[pivot]) by {
        if part_from <= k < part_to {
            lemma_rearranged_element(before, after, part_from, part_to, k);
            let origin = choose|origin: int|
                part_from <= origin < part_to && before[origin] == after[k];
            assert(at_most(before[origin], before[pivot]));
        } else {
            assert(at_most(before[k], before[pivot]));
        }
    }
    assert forall|k: int| pivot < k < to implies at_most(after[pivot], #[trigger] after[k]) by {
        if part_from <= k < part_to {
            lemma_rearranged_element(before, after, part_from, part_to, k);
            let origin = choose|origin: int|
                part_from <= origin < part_to && before[origin] == after[k];
            assert(at_most(before[pivot], before[origin]));
        } else {
            assert(at_most(before[pivot], before[k]));
        }
    }
}

/// Two sorted parts on either side of a pivot that splits them make one
/// sorted range.
proof fn lemma_sorted_parts_join<T: PartialOrd>(s: Seq<T>, from: int, pivot: int, to: int)
    requires
        total_order::<T>(),
        0 <= from <= pivot < to <= s.len(),
        split_around(s, from, pivot, to),
        sorted_between(s, from, pivot),
        sorted_between(s, pivot + 1, to),
    ensures
        sorted_between(s, from, to),
{
    assert forall|p: int, q: int| from <= p < q < to implies at_most(
        #[trigger] s[p],
        #[trigger] s[q],
    ) by {
        if p < pivot && pivot < q {
            assert(at_most(s[p], s[pivot]) && at_most(s[pivot], s[q]));
        }
    }
}

/// Exchanges the elements at two places of `array`.
fn exchange<T>(array: &mut Vec<T>, j: usize, k: usize) where T: PartialOrd + Copy
    requires
        j < old(array).len(),
        k < old(array).len(),
    ensures
        final(array)@ == old(array)@.update(j as int, old(array)@[k as int]).update(
            k as int,
            old(array)@[j as int],
        ),
{
    let temp = array[j];
    array[j] = array[k];
    array[k] = temp;
}

/// Takes the last element of the range as the pivot, moves everything that is
/// not larger in front of it, and returns where the pivot then stands.
fn partition<T>(array: &mut Vec<T>, start_index: usize, end_index: usize) -> (pivot_index: usize)
    where T: PartialOrd + Copy
    requires
        start_index <= end_index < old(array).len(),
    ensures
        start_index <= pivot_index <= end_index,
        rearranged_between(old(array)@, final(array)@, start_index as int, end_index + 1),
        total_order::<T>() ==> split_around(
            final(array)@,
            start_index as int,
            pivot_index as int,
            end_index + 1,
        ),
{
    let pivot = array[end_index];
    let mut j = start_index;
    let ghost from = start_index as int;
    let ghost to = end_index + 1;

    proof {
        lemma_rearranged_same(array@, from, to);
    }
    for i in start_index..end_index
        invariant
            start_index <= j <= i,
            end_index < array.len(),
            from == start_index,
            to == end_index + 1,
            array@[end_index as int] == pivot,
            rearranged_between(old(array)@, array@, from, to),
            total_order::<T>() ==> forall|k: int|
                start_index <= k < j ==> at_most(#[trigger] array@[k], pivot),
            total_order::<T>() ==> forall|k: int|
                j <= k < i ==> at_most(pivot, #[trigger] array@[k]),
    {
        let ghost before = array@;
        proof {
            if total_order::<T>() {
                lemma_total_order_basics(before[i as int], pivot);
            }
        }
        if array[i] <= pivot {
            exchange(array, i, j);
            proof {
                lemma_swap_rearranges(before, i as int, j as int, from, to);
            }
            j += 1;
        }
    }

    let ghost before = array@;
    exchange(array, j, end_index);
    proof {
        lemma_swap_rearranges(before, j as int, end_index as int, from, to);
        if total_order::<T>() {
            lemma_total_order_basics(pivot, pivot);
        }
    }
    j
}

/// A sequence is a rearrangement of itself.
proof fn lemma_rearranged_same<T>(s: Seq<T>, from: int, to: int)
    requires
        0 <= from <= to <= s.len(),
    ensures
        rearranged_between(s, s, from, to),
{
}

/// Sorts the elements from position `start` to position `end`, both included.
fn quick_sort<T>(array: &mut Vec<T>, start: usize, end: usize) where T: PartialOrd + Copy
    requires
        start < end ==> end < old(array).len(),
    ensures
        final(array).len() == old(array).len(),
        start < end ==> rearranged_between(old(array)@, final(array)@, start as int, end + 1),
        start >= end ==> final(array)@ == old(array)@,
        total_order::<T>() && start < end ==> sorted_between(final(array)@, start as int, end + 1),
    decreases
        (if start < end { end - start } else { 0 }),
{
    if start < end {
        let pivot = partition(array, start, end);
        let ghost parted = array@;

        if pivot > 0 {
            quick_sort(array, start, pivot - 1);
        }
        let ghost half = array@;
        proof {
            if start < pivot - 1 {
            } else {
                lemma_rearranged_same(parted, start as int, pivot as int);
            }
            assert(rearranged_between(parted, half, start as int, pivot as int));
        }
        quick_sort(array, pivot + 1, end);
        proof {
            let done = array@;
            if pivot + 1 < end {
            } else {
                lemma_rearranged_same(half, pivot + 1, end + 1);
            }
            assert(rearranged_between(half, done, pivot + 1, end + 1));
            lemma_rearranged_wider(parted, half, start as int, pivot as int, start as int, end + 1);
            lemma_rearranged_wider(half, done, pivot + 1, end + 1, start as int, end + 1);
            if total_order::<T>() {
                lemma_split_survives(
                    parted,
                    half,
                    start as int,
                    pivot as int,
                    end + 1,
                    start as int,
                    pivot as int,
                );
                lemma_split_survives(
                    half,
                    done,
                    start as int,
                    pivot as int,
                    end + 1,
                    pivot + 1,
                    end + 1,
                );
                assert(sorted_between(done, start as int, pivot as int));
                assert(sorted_between(done, pivot + 1, end + 1));
                lemma_sorted_parts_join(done, start as int, pivot as int, end + 1);
            }
        }
    }
}

/// A sorted copy of `array`; `array` itself is left as it is.
pub fn sort<T>(array: &Vec<T>) -> (sorted_copy: Vec<T>) where T: PartialOrd + Copy
    ensures
        sorted_copy@.to_multiset() == array@.to_multiset(),
        total_order::<T>() ==> sorted(sorted_copy@),
{
    let mut sorted_copy = copy_of(array);
    sort_mut(&mut sorted_copy);
    sorted_copy
}

/// Sorts `array` in place: splits it around a pivot and sorts both sides.
pub fn sort_mut<T>(array: &mut Vec<T>) where T: PartialOrd + Copy
    ensures
        final(array)@.to_multiset() == old(array)@.to_multiset(),
        total_order::<T>() ==> sorted(final(array)@),
{
    let len = array.len();
    if len == 0 {
        return;
    }
    quick_sort(array, 0, len - 1);
    proof {
        assert(array@.subrange(0, len as int) =~= array@);
        assert(old(array)@.subrange(0, len as int) =~= old(array)@);
    }
}

} // verus!

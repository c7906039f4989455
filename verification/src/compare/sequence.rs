//! What it means for one sequence to lie inside another, in order or in one
//! piece. These notions are generic over the element type: they only ever ask
//! whether two elements are equal.

use vstd::prelude::*;

verus! {

/// `at` places `s` inside `t`: element `k` of `s` is found at position `at[k]`
/// of `t`, and the positions climb from left to right.
pub open spec fn embeds<T>(s: Seq<T>, t: Seq<T>, at: Seq<int>) -> bool {
    &&& at.len() == s.len()
    &&& forall|k: int| 0 <= k < s.len() ==> 0 <= #[trigger] at[k] < t.len() && t[at[k]] == s[k]
    &&& forall|k: int, l: int| 0 <= k < l < s.len() ==> #[trigger] at[k] < #[trigger] at[l]
}

/// `s` is what remains of `t` after deleting some of its elements.
pub open spec fn is_subsequence<T>(s: Seq<T>, t: Seq<T>) -> bool {
    exists|at: Seq<int>| embeds(s, t, at)
}

/// `s` occurs in `t` in one piece.
pub open spec fn is_substring<T>(s: Seq<T>, t: Seq<T>) -> bool {
    exists|from: int|
        0 <= from <= t.len() - s.len() && #[trigger] t.subrange(from, from + s.len()) == s
}

/// The empty sequence lies inside every sequence.
pub proof fn lemma_empty_is_subsequence<T>(t: Seq<T>)
    ensures
        is_subsequence(Seq::<T>::empty(), t),
{
    assert(embeds(Seq::<T>::empty(), t, Seq::<int>::empty()));
}

/// What lies inside a sequence is no longer than the sequence.
pub proof fn lemma_subsequence_is_shorter<T>(s: Seq<T>, t: Seq<T>)
    requires
        is_subsequence(s, t),
    ensures
        s.len() <= t.len(),
    decreases t.len(),
{
    if s.len() > 0 {
        lemma_subsequence_peel(s, t);
        if s.last() == t.last() && is_subsequence(s.drop_last(), t.drop_last()) {
            lemma_subsequence_is_shorter(s.drop_last(), t.drop_last());
        } else {
            lemma_subsequence_is_shorter(s, t.drop_last());
        }
    }
}

/// A subsequence of a prefix of `t` is a subsequence of `t`.
pub proof fn lemma_subsequence_of_prefix<T>(s: Seq<T>, t: Seq<T>, n: int)
    requires
        0 <= n <= t.len(),
        is_subsequence(s, t.take(n)),
    ensures
        is_subsequence(s, t),
{
    let at = choose|at: Seq<int>| embeds(s, t.take(n), at);
    assert(embeds(s, t, at));
}

/// Appending the same element to both sides keeps one inside the other.
pub proof fn lemma_subsequence_push<T>(s: Seq<T>, t: Seq<T>, x: T)
    requires
        is_subsequence(s, t),
    ensures
        is_subsequence(s.push(x), t.push(x)),
{
    let at = choose|at: Seq<int>| embeds(s, t, at);
    let longer = at.push(t.len() as int);
    assert(embeds(s.push(x), t.push(x), longer));
}

/// How a non-empty subsequence ends: either its last element is the last
/// element of `t` and the rest lies in the rest, or all of it lies in `t`
/// without its last element.
pub proof fn lemma_subsequence_peel<T>(s: Seq<T>, t: Seq<T>)
    requires
        is_subsequence(s, t),
        s.len() > 0,
    ensures
        t.len() > 0,
        (s.last() == t.last() && is_subsequence(s.drop_last(), t.drop_last()))
            || is_subsequence(s, t.drop_last()),
{
    let at = choose|at: Seq<int>| embeds(s, t, at);
    let end = at[s.len() - 1];
    assert(0 <= end < t.len());
    if end == t.len() - 1 {
        assert(embeds(s.drop_last(), t.drop_last(), at.drop_last())) by {
            assert forall|k: int| 0 <= k < s.len() - 1 implies at[k] < t.len() - 1 by {
                assert(at[k] < at[s.len() - 1]);
            }
        }
    } else {
        assert(embeds(s, t.drop_last(), at)) by {
            assert forall|k: int| 0 <= k < s.len() implies at[k] < t.len() - 1 by {
                if k < s.len() - 1 {
                    assert(at[k] < at[s.len() - 1]);
                }
            }
        }
    }
}

/// Dropping the last element of a subsequence leaves a subsequence.
pub proof fn lemma_subsequence_drop_last<T>(s: Seq<T>, t: Seq<T>)
    requires
        is_subsequence(s, t),
        s.len() > 0,
    ensures
        is_subsequence(s.drop_last(), t),
{
    let at = choose|at: Seq<int>| embeds(s, t, at);
    assert(embeds(s.drop_last(), t, at.drop_last()));
}

/// Whatever occurs in `t` in one piece also lies inside `t` in order.
pub proof fn lemma_substring_is_subsequence<T>(s: Seq<T>, t: Seq<T>)
    requires
        is_substring(s, t),
    ensures
        is_subsequence(s, t),
{
    let from = choose|from: int|
        0 <= from <= t.len() - s.len() && #[trigger] t.subrange(from, from + s.len()) == s;
    let at = Seq::new(s.len(), |k: int| from + k);
    assert forall|k: int| 0 <= k < s.len() implies t[at[k]] == s[k] by {
        assert(t.subrange(from, from + s.len())[k] == t[from + k]);
    }
    assert(embeds(s, t, at));
}

} // verus!

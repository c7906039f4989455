//! What holds between the two comparisons of the same pair of texts.

use vstd::prelude::*;
use crate::compare::sequence::lemma_substring_is_subsequence;
use crate::compare::subsequence::{lcs_len, lemma_lcs_len_is_longest};
use crate::compare::substring::{
    common_at, is_longest_common_len, lemma_common_piece_is_substring,
};

verus! {

/// The longest common substring is no longer than the longest common
/// subsequence: a piece that occurs in both texts also lies inside both.
pub proof fn lemma_substring_at_most_subsequence<T>(a: Seq<T>, b: Seq<T>, len: int)
    requires
        is_longest_common_len(a, b, len),
    ensures
        len <= lcs_len(a, b),
{
    let (i, j) = choose|i: int, j: int| #[trigger] common_at(a, b, i, j, len);
    let piece = a.subrange(i - len, i);
    lemma_common_piece_is_substring(a, b, i, j, len);
    lemma_substring_is_subsequence(piece, a);
    lemma_substring_is_subsequence(piece, b);
    lemma_lcs_len_is_longest(a, b, piece);
}

} // verus!

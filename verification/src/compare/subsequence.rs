//! The longest common subsequence of two texts.
//!
//! The comparator fills the whole table of prefix answers when it is built
//! and keeps it: rolling two rows would save memory, but the table is what the
//! later walk back through the matching characters reads.

use vstd::prelude::*;
use crate::compare::sequence::{
    embeds, is_subsequence, lemma_empty_is_subsequence, lemma_subsequence_drop_last,
    lemma_subsequence_of_prefix, lemma_subsequence_peel, lemma_subsequence_push,
};
use crate::compare::text::{chars_of, text_of_reversed, zero_grid};

verus! {

/// The entry of the table at row `i`, column `j`: zero on the border, one more
/// than the diagonal neighbour where the characters meet, and otherwise the
/// larger of the neighbours to the left and above.
pub open spec fn lcs_table<T>(a: Seq<T>, b: Seq<T>, i: nat, j: nat) -> nat
    decreases i + j,
{
    if i == 0 || j == 0 {
        0
    } else if a[i - 1] == b[j - 1] {
        lcs_table(a, b, (i - 1) as nat, (j - 1) as nat) + 1
    } else {
        let left = lcs_table(a, b, i, (j - 1) as nat);
        let up = lcs_table(a, b, (i - 1) as nat, j);
        if left >= up { left } else { up }
    }
}

/// The length of the longest common subsequence of `a` and `b`.
pub open spec fn lcs_len<T>(a: Seq<T>, b: Seq<T>) -> nat {
    lcs_table(a, b, a.len(), b.len())
}

/// The common subsequence that the walk back from row `i`, column `j` of the
/// table collects. Where the characters meet it takes the character and steps
/// diagonally; otherwise it steps towards the larger neighbour, and up rather
/// than left when the two are equal.
pub open spec fn lcs_walk<T>(a: Seq<T>, b: Seq<T>, i: nat, j: nat) -> Seq<T>
    decreases i + j,
{
    if i == 0 || j == 0 {
        Seq::empty()
    } else if a[i - 1] == b[j - 1] {
        lcs_walk(a, b, (i - 1) as nat, (j - 1) as nat).push(a[i - 1])
    } else if lcs_table(a, b, (i - 1) as nat, j) >= lcs_table(a, b, i, (j - 1) as nat) {
        lcs_walk(a, b, (i - 1) as nat, j)
    } else {
        lcs_walk(a, b, i, (j - 1) as nat)
    }
}

/// The one longest common subsequence that the comparator reports.
pub open spec fn lcs_text<T>(a: Seq<T>, b: Seq<T>) -> Seq<T> {
    lcs_walk(a, b, a.len(), b.len())
}

/// What the comparator answers when asked for the matching text: nothing
/// where the longest common subsequence is empty, and else [`lcs_text`].
pub open spec fn longest_subsequence<T>(a: Seq<T>, b: Seq<T>) -> Option<Seq<T>> {
    if lcs_len(a, b) == 0 {
        None
    } else {
        Some(lcs_text(a, b))
    }
}

/// Some element of `a` is an element of `b`.
pub open spec fn shares_element<T>(a: Seq<T>, b: Seq<T>) -> bool {
    exists|i: int, j: int|
        0 <= i < a.len() && 0 <= j < b.len() && #[trigger] a[i] == #[trigger] b[j]
}

/// No entry exceeds its row or its column number.
pub proof fn lemma_table_bounded<T>(a: Seq<T>, b: Seq<T>, i: nat, j: nat)
    ensures
        lcs_table(a, b, i, j) <= i,
        lcs_table(a, b, i, j) <= j,
    decreases i + j,
{
    if i == 0 || j == 0 {
    } else if a[i - 1] == b[j - 1] {
        lemma_table_bounded(a, b, (i - 1) as nat, (j - 1) as nat);
    } else {
        lemma_table_bounded(a, b, i, (j - 1) as nat);
        lemma_table_bounded(a, b, (i - 1) as nat, j);
    }
}

/// The walk collects exactly as many elements as the table entry says, and
/// what it collects lies inside both prefixes.
pub proof fn lemma_walk_is_common<T>(a: Seq<T>, b: Seq<T>, i: nat, j: nat)
    requires
        i <= a.len(),
        j <= b.len(),
    ensures
        lcs_walk(a, b, i, j).len() == lcs_table(a, b, i, j),
        is_subsequence(lcs_walk(a, b, i, j), a.take(i as int)),
        is_subsequence(lcs_walk(a, b, i, j), b.take(j as int)),
    decreases i + j,
{
    let w = lcs_walk(a, b, i, j);
    if i == 0 || j == 0 {
        lemma_empty_is_subsequence(a.take(i as int));
        lemma_empty_is_subsequence(b.take(j as int));
    } else if a[i - 1] == b[j - 1] {
        let inner = lcs_walk(a, b, (i - 1) as nat, (j - 1) as nat);
        lemma_walk_is_common(a, b, (i - 1) as nat, (j - 1) as nat);
        lemma_subsequence_push(inner, a.take(i - 1), a[i - 1]);
        lemma_subsequence_push(inner, b.take(j - 1), b[j - 1]);
        assert(a.take(i - 1).push(a[i - 1]) =~= a.take(i as int));
        assert(b.take(j - 1).push(b[j - 1]) =~= b.take(j as int));
    } else if lcs_table(a, b, (i - 1) as nat, j) >= lcs_table(a, b, i, (j - 1) as nat) {
        lemma_walk_is_common(a, b, (i - 1) as nat, j);
        assert(a.take(i as int).take(i - 1) =~= a.take(i - 1));
        lemma_subsequence_of_prefix(w, a.take(i as int), i - 1);
    } else {
        lemma_walk_is_common(a, b, i, (j - 1) as nat);
        assert(b.take(j as int).take(j - 1) =~= b.take(j - 1));
        lemma_subsequence_of_prefix(w, b.take(j as int), j - 1);
    }
}

/// No common subsequence of the two prefixes is longer than the table entry.
pub proof fn lemma_table_is_upper_bound<T>(a: Seq<T>, b: Seq<T>, i: nat, j: nat, c: Seq<T>)
    requires
        i <= a.len(),
        j <= b.len(),
        is_subsequence(c, a.take(i as int)),
        is_subsequence(c, b.take(j as int)),
    ensures
        c.len() <= lcs_table(a, b, i, j),
    decreases i + j,
{
    if c.len() == 0 {
    } else {
        lemma_subsequence_peel(c, a.take(i as int));
        lemma_subsequence_peel(c, b.take(j as int));
        assert(a.take(i as int).drop_last() =~= a.take(i - 1));
        assert(b.take(j as int).drop_last() =~= b.take(j - 1));
        if a[i - 1] == b[j - 1] {
            if !is_subsequence(c.drop_last(), a.take(i - 1)) {
                lemma_subsequence_drop_last(c, a.take(i - 1));
            }
            if !is_subsequence(c.drop_last(), b.take(j - 1)) {
                lemma_subsequence_drop_last(c, b.take(j - 1));
            }
            lemma_table_is_upper_bound(a, b, (i - 1) as nat, (j - 1) as nat, c.drop_last());
        } else if is_subsequence(c, a.take(i - 1)) {
            lemma_table_is_upper_bound(a, b, (i - 1) as nat, j, c);
        } else {
            assert(is_subsequence(c, b.take(j - 1)));
            lemma_table_is_upper_bound(a, b, i, (j - 1) as nat, c);
        }
    }
}

/// Exchanging the two inputs transposes the table.
pub proof fn lemma_table_transposed<T>(a: Seq<T>, b: Seq<T>, i: nat, j: nat)
    ensures
        lcs_table(a, b, i, j) == lcs_table(b, a, j, i),
    decreases i + j,
{
    if i == 0 || j == 0 {
    } else if a[i - 1] == b[j - 1] {
        lemma_table_transposed(a, b, (i - 1) as nat, (j - 1) as nat);
    } else {
        lemma_table_transposed(a, b, i, (j - 1) as nat);
        lemma_table_transposed(a, b, (i - 1) as nat, j);
    }
}

/// An entry depends only on the elements before its row and its column: the
/// entry at row `i`, column `j` is the length of the longest common
/// subsequence of the first `i` elements of `a` and the first `j` of `b`.
pub proof fn lemma_table_entry_is_prefix_lcs<T>(a: Seq<T>, b: Seq<T>, i: nat, j: nat)
    requires
        i <= a.len(),
        j <= b.len(),
    ensures
        lcs_table(a, b, i, j) == lcs_len(a.take(i as int), b.take(j as int)),
{
    lemma_table_of_prefixes(a, b, i, j, i, j);
}

/// Cutting the inputs off behind row `rows` and column `cols` changes no entry
/// up to there.
proof fn lemma_table_of_prefixes<T>(a: Seq<T>, b: Seq<T>, rows: nat, cols: nat, i: nat, j: nat)
    requires
        i <= rows <= a.len(),
        j <= cols <= b.len(),
    ensures
        lcs_table(a.take(rows as int), b.take(cols as int), i, j) == lcs_table(a, b, i, j),
    decreases i + j,
{
    if i == 0 || j == 0 {
    } else {
        assert(a.take(rows as int)[i - 1] == a[i - 1]);
        assert(b.take(cols as int)[j - 1] == b[j - 1]);
        lemma_table_of_prefixes(a, b, rows, cols, (i - 1) as nat, (j - 1) as nat);
        lemma_table_of_prefixes(a, b, rows, cols, i, (j - 1) as nat);
        lemma_table_of_prefixes(a, b, rows, cols, (i - 1) as nat, j);
    }
}

/// Entries never shrink along a row or down a column.
pub proof fn lemma_table_monotone<T>(a: Seq<T>, b: Seq<T>, i: nat, j: nat)
    ensures
        lcs_table(a, b, i, j) <= lcs_table(a, b, i + 1, j),
        lcs_table(a, b, i, j) <= lcs_table(a, b, i, j + 1),
        lcs_table(a, b, i + 1, j) <= lcs_table(a, b, i, j) + 1,
        lcs_table(a, b, i, j + 1) <= lcs_table(a, b, i, j) + 1,
    decreases i + j,
{
    if i > 0 {
        lemma_table_monotone(a, b, (i - 1) as nat, j);
    }
    if j > 0 {
        lemma_table_monotone(a, b, i, (j - 1) as nat);
    }
    if i > 0 && j > 0 {
        lemma_table_monotone(a, b, (i - 1) as nat, (j - 1) as nat);
    }
}

/// The longest common subsequence is no longer than the shorter input.
pub proof fn lemma_lcs_len_at_most_shorter<T>(a: Seq<T>, b: Seq<T>)
    ensures
        lcs_len(a, b) <= a.len(),
        lcs_len(a, b) <= b.len(),
{
    lemma_table_bounded(a, b, a.len(), b.len());
}

/// Comparing `a` with `b` finds the same length as comparing `b` with `a`.
pub proof fn lemma_lcs_len_symmetric<T>(a: Seq<T>, b: Seq<T>)
    ensures
        lcs_len(a, b) == lcs_len(b, a),
{
    lemma_table_transposed(a, b, a.len(), b.len());
}

/// Where either input is empty the length is zero and there is no matching
/// text.
pub proof fn lemma_lcs_of_empty<T>(a: Seq<T>, b: Seq<T>)
    requires
        a.len() == 0 || b.len() == 0,
    ensures
        lcs_len(a, b) == 0,
        longest_subsequence(a, b) is None,
{
}

/// The reported text has the reported length and lies inside both inputs.
pub proof fn lemma_lcs_text_is_common<T>(a: Seq<T>, b: Seq<T>)
    ensures
        lcs_text(a, b).len() == lcs_len(a, b),
        is_subsequence(lcs_text(a, b), a),
        is_subsequence(lcs_text(a, b), b),
{
    lemma_walk_is_common(a, b, a.len(), b.len());
    assert(a.take(a.len() as int) =~= a);
    assert(b.take(b.len() as int) =~= b);
}

/// No sequence that lies inside both inputs is longer than the reported
/// length.
pub proof fn lemma_lcs_len_is_longest<T>(a: Seq<T>, b: Seq<T>, c: Seq<T>)
    requires
        is_subsequence(c, a),
        is_subsequence(c, b),
    ensures
        c.len() <= lcs_len(a, b),
{
    assert(a.take(a.len() as int) =~= a);
    assert(b.take(b.len() as int) =~= b);
    lemma_table_is_upper_bound(a, b, a.len(), b.len(), c);
}

/// The length is zero exactly where the inputs share no element.
pub proof fn lemma_lcs_len_zero<T>(a: Seq<T>, b: Seq<T>)
    ensures
        lcs_len(a, b) == 0 <==> !shares_element(a, b),
{
    if shares_element(a, b) {
        let (i, j) = choose|i: int, j: int|
            0 <= i < a.len() && 0 <= j < b.len() && #[trigger] a[i] == #[trigger] b[j];
        let one = seq![a[i]];
        assert(embeds(one, a, seq![i]));
        assert(embeds(one, b, seq![j]));
        lemma_lcs_len_is_longest(a, b, one);
    }
    if lcs_len(a, b) != 0 {
        lemma_lcs_text_is_common(a, b);
        let text = lcs_text(a, b);
        let in_a = choose|at: Seq<int>| embeds(text, a, at);
        let in_b = choose|at: Seq<int>| embeds(text, b, at);
        assert(a[in_a[0]] == text[0]);
        assert(b[in_b[0]] == text[0]);
    }
}

/// Asking twice gives the same answer: whatever two queries of one comparison
/// return, they return the same.
pub proof fn lemma_same_answer_again<T>(
    a: Seq<T>,
    b: Seq<T>,
    first: Option<Seq<T>>,
    second: Option<Seq<T>>,
)
    requires
        first == longest_subsequence(a, b),
        second == longest_subsequence(a, b),
    ensures
        first == second,
{
}

/// Two texts with the table of their longest common subsequences, prefix by
/// prefix, so that the length and the matching text can be read off later
/// without comparing again.
#[derive(Debug)]
pub struct LCSubsequence {
    /// The length of the longest common subsequence.
    pub subsequence_len: usize,
    grid: Vec<Vec<usize>>,
    left_chars: Vec<char>,
    right_chars: Vec<char>,
}

impl LCSubsequence {
    /// The characters of the first text.
    pub closed spec fn left(&self) -> Seq<char> {
        self.left_chars@
    }

    /// The characters of the second text.
    pub closed spec fn right(&self) -> Seq<char> {
        self.right_chars@
    }

    /// The table has one row more than the first text has characters and one
    /// column more than the second, every entry is the table entry of the two
    /// texts, and the recorded length is the entry in the last corner.
    pub closed spec fn wf(&self) -> bool {
        &&& self.grid.len() == self.left_chars.len() + 1
        &&& forall|i: int|
            0 <= i <= self.left_chars.len() ==> (#[trigger] self.grid[i]).len()
                == self.right_chars.len() + 1
        &&& forall|i: int, j: int|
            0 <= i <= self.left_chars.len() && 0 <= j <= self.right_chars.len()
                ==> (#[trigger] self.grid[i][j]) == lcs_table(
                self.left_chars@,
                self.right_chars@,
                i as nat,
                j as nat,
            )
        &&& self.subsequence_len == lcs_len(self.left_chars@, self.right_chars@)
    }

    /// The value held in the field `subsequence_len`.
    pub closed spec fn recorded_len(&self) -> nat {
        self.subsequence_len as nat
    }

    /// A well-formed comparator records the length of the longest common
    /// subsequence of its two texts.
    pub proof fn lemma_recorded_len(&self)
        requires
            self.wf(),
        ensures
            self.recorded_len() == lcs_len(self.left(), self.right()),
    {
    }

    /// The length of the longest common subsequence, read from the record.
    pub fn length(&self) -> (n: usize)
        requires
            self.wf(),
        ensures
            n == self.recorded_len(),
            n == lcs_len(self.left(), self.right()),
    {
        self.subsequence_len
    }

    /// Compares `left` with `right`: fills the whole table and records the
    /// length of their longest common subsequence.
    pub fn new_subsequence(left: String, right: String) -> (r: Self)
        ensures
            r.wf(),
            r.left() == left@,
            r.right() == right@,
            r.recorded_len() == lcs_len(left@, right@),
            r.recorded_len() <= left@.len(),
            r.recorded_len() <= right@.len(),
            left@.len() == 0 || right@.len() == 0 ==> r.recorded_len() == 0,
    {
        let left_chars = chars_of(left.as_str());
        let right_chars = chars_of(right.as_str());
        let left_len = left_chars.len();
        let right_len = right_chars.len();
        let mut grid = zero_grid(left_len, right_len);
        let ghost a = left_chars@;
        let ghost b = right_chars@;

        let mut i: usize = 0;
        while i < left_len
            invariant
                i <= left_len,
                left_len == a.len(),
                right_len == b.len(),
                a == left_chars@,
                b == right_chars@,
                grid.len() == left_len + 1,
                forall|r: int| 0 <= r <= left_len ==> (#[trigger] grid[r]).len() == right_len + 1,
                forall|r: int| 0 <= r <= left_len ==> (#[trigger] grid[r])[0] == 0,
                forall|r: int, c: int|
                    0 <= r <= i && 0 <= c <= right_len ==> (#[trigger] grid[r][c]) == lcs_table(
                        a,
                        b,
                        r as nat,
                        c as nat,
                    ),
            decreases left_len - i,
        {
            let mut j: usize = 0;
            while j < right_len
                invariant
                    i < left_len,
                    j <= right_len,
                    left_len == a.len(),
                    right_len == b.len(),
                    a == left_chars@,
                    b == right_chars@,
                    grid.len() == left_len + 1,
                    forall|r: int|
                        0 <= r <= left_len ==> (#[trigger] grid[r]).len() == right_len + 1,
                    forall|r: int| 0 <= r <= left_len ==> (#[trigger] grid[r])[0] == 0,
                    forall|r: int, c: int|
                        0 <= r <= i && 0 <= c <= right_len ==> (#[trigger] grid[r][c])
                            == lcs_table(a, b, r as nat, c as nat),
                    forall|c: int|
                        0 <= c <= j ==> (#[trigger] grid[i + 1][c]) == lcs_table(
                            a,
                            b,
                            (i + 1) as nat,
                            c as nat,
                        ),
                decreases right_len - j,
            {
                let value = if left_chars[i] == right_chars[j] {
                    proof {
                        lemma_table_bounded(a, b, i as nat, j as nat);
                    }
                    grid[i][j] + 1
                } else {
                    let left_cell = grid[i + 1][j];
                    let up_cell = grid[i][j + 1];
                    if left_cell >= up_cell {
                        left_cell
                    } else {
                        up_cell
                    }
                };
                assert(value == lcs_table(a, b, (i + 1) as nat, (j + 1) as nat));
                grid[i + 1][j + 1] = value;
                j += 1;
            }
            i += 1;
        }

        let subsequence_len = grid[left_len][right_len];
        proof {
            lemma_lcs_len_at_most_shorter(a, b);
        }
        LCSubsequence { subsequence_len, grid, left_chars, right_chars }
    }

    /// The longest common subsequence as text, or `None` where the two texts
    /// share no character. Of several longest ones it is the one that the walk
    /// back through the table finds, which steps up rather than left where the
    /// two neighbours are equal: [`lcs_text`].
    pub fn get_longest_subsequence(&self) -> (r: Option<String>)
        requires
            self.wf(),
        ensures
            r.deep_view() == longest_subsequence(self.left(), self.right()),
            r is None <==> self.recorded_len() == 0,
            r matches Some(text) ==> {
                &&& text@.len() == self.recorded_len()
                &&& is_subsequence(text@, self.left())
                &&& is_subsequence(text@, self.right())
            },
    {
        if self.subsequence_len == 0 {
            return None;
        }
        let ghost a = self.left_chars@;
        let ghost b = self.right_chars@;
        let mut i: usize = self.grid.len() - 1;
        let mut j: usize = self.grid[0].len() - 1;
        let mut output: Vec<char> = Vec::new();

        while i > 0 && j > 0
            invariant
                self.wf(),
                a == self.left_chars@,
                b == self.right_chars@,
                i <= a.len(),
                j <= b.len(),
                lcs_text(a, b) == lcs_walk(a, b, i as nat, j as nat) + output@.reverse(),
            decreases i + j,
        {
            if self.left_chars[i - 1] == self.right_chars[j - 1] {
                proof {
                    let rest = lcs_walk(a, b, (i - 1) as nat, (j - 1) as nat);
                    let x = a[i - 1];
                    assert(output@.push(x).reverse() =~= seq![x] + output@.reverse());
                    assert(rest.push(x) + output@.reverse() =~= rest + (seq![x]
                        + output@.reverse()));
                }
                output.push(self.left_chars[i - 1]);
                i -= 1;
                j -= 1;
            } else if self.grid[i - 1][j] >= self.grid[i][j - 1] {
                i -= 1;
            } else {
                j -= 1;
            }
        }

        proof {
            assert(lcs_walk(a, b, i as nat, j as nat) =~= Seq::<char>::empty());
            assert(lcs_text(a, b) =~= output@.reverse());
            lemma_lcs_text_is_common(a, b);
        }
        Some(text_of_reversed(&output))
    }
}

} // verus!

//! The longest common substring of two texts.
//!
//! The comparator fills the whole table of matching runs when it is built,
//! and remembers where the longest run ends. The matching text is then a
//! slice of the first text: no walk through the table is needed.

use vstd::prelude::*;
use crate::compare::sequence::is_substring;
use crate::compare::subsequence::shares_element;
use crate::compare::text::{chars_of, text_of, zero_grid};

verus! {

/// The entry of the table at row `i`, column `j`: the length of the run of
/// equal elements that ends with element `i - 1` of `a` and element `j - 1` of
/// `b`. It is zero on the border and wherever the two elements differ.
pub open spec fn run_table<T>(a: Seq<T>, b: Seq<T>, i: nat, j: nat) -> nat
    decreases i,
{
    if i == 0 || j == 0 {
        0
    } else if a[i - 1] == b[j - 1] {
        run_table(a, b, (i - 1) as nat, (j - 1) as nat) + 1
    } else {
        0
    }
}

/// The `len` elements of `a` before position `i` are the `len` elements of `b`
/// before position `j`.
pub open spec fn common_at<T>(a: Seq<T>, b: Seq<T>, i: int, j: int, len: int) -> bool {
    &&& 0 <= len <= i <= a.len()
    &&& len <= j <= b.len()
    &&& a.subrange(i - len, i) == b.subrange(j - len, j)
}

/// `len` is the length of the longest common substring of `a` and `b`: a piece
/// of that length occurs in both, and no longer piece does.
pub open spec fn is_longest_common_len<T>(a: Seq<T>, b: Seq<T>, len: int) -> bool {
    &&& exists|i: int, j: int| #[trigger] common_at(a, b, i, j, len)
    &&& forall|i: int, j: int, k: int| #[trigger] common_at(a, b, i, j, k) ==> k <= len
}

/// `(i, j)` comes no later than `(i2, j2)` when the table is read row by row.
pub open spec fn not_after(i: int, j: int, i2: int, j2: int) -> bool {
    i < i2 || (i == i2 && j <= j2)
}

/// Of all places where a common piece of length `len` ends, `(i, j)` is the
/// first that a row-by-row reading of the table meets.
pub open spec fn is_first_end<T>(a: Seq<T>, b: Seq<T>, len: int, i: int, j: int) -> bool {
    &&& common_at(a, b, i, j, len)
    &&& forall|i2: int, j2: int| #[trigger]
        common_at(a, b, i2, j2, len) ==> not_after(i, j, i2, j2)
}

/// The piece of `a` of length `len` that ends before position `end`, or
/// nothing where `len` is zero: what the comparator answers when asked for
/// the matching text.
pub open spec fn piece_ending_at<T>(a: Seq<T>, len: int, end: int) -> Option<Seq<T>> {
    if len == 0 {
        None
    } else {
        Some(a.subrange(end - len, end))
    }
}

/// A table entry of at least `len` means that the `len` elements before the
/// two positions agree, and the other way round.
pub proof fn lemma_run_is_common<T>(a: Seq<T>, b: Seq<T>, i: nat, j: nat, len: nat)
    requires
        len <= i <= a.len(),
        len <= j <= b.len(),
    ensures
        common_at(a, b, i as int, j as int, len as int) <==> len <= run_table(a, b, i, j),
    decreases len,
{
    let left = a.subrange(i - len, i as int);
    let right = b.subrange(j - len, j as int);
    if len == 0 {
        assert(left =~= right);
    } else {
        lemma_run_is_common(a, b, (i - 1) as nat, (j - 1) as nat, (len - 1) as nat);
        let left_rest = a.subrange(i - len, i - 1);
        let right_rest = b.subrange(j - len, j - 1);
        if common_at(a, b, i as int, j as int, len as int) {
            assert(left[len - 1] == right[len - 1]);
            assert(left_rest =~= left.drop_last());
            assert(right_rest =~= right.drop_last());
        }
        if len <= run_table(a, b, i, j) {
            assert(left =~= left_rest.push(a[i - 1]));
            assert(right =~= right_rest.push(b[j - 1]));
        }
    }
}

/// No table entry exceeds its row or its column number.
pub proof fn lemma_run_bounded<T>(a: Seq<T>, b: Seq<T>, i: nat, j: nat)
    ensures
        run_table(a, b, i, j) <= i,
        run_table(a, b, i, j) <= j,
    decreases i,
{
    if i > 0 && j > 0 && a[i - 1] == b[j - 1] {
        lemma_run_bounded(a, b, (i - 1) as nat, (j - 1) as nat);
    }
}

/// Two texts have one longest common length.
pub proof fn lemma_longest_common_len_unique<T>(a: Seq<T>, b: Seq<T>, x: int, y: int)
    requires
        is_longest_common_len(a, b, x),
        is_longest_common_len(a, b, y),
    ensures
        x == y,
{
}

/// The first place where a longest common piece ends is one place.
pub proof fn lemma_first_end_unique<T>(
    a: Seq<T>,
    b: Seq<T>,
    len: int,
    i: int,
    j: int,
    i2: int,
    j2: int,
)
    requires
        is_first_end(a, b, len, i, j),
        is_first_end(a, b, len, i2, j2),
    ensures
        i == i2,
        j == j2,
{
}

/// The piece that ends at a place where the two texts agree occurs in both.
pub proof fn lemma_common_piece_is_substring<T>(a: Seq<T>, b: Seq<T>, i: int, j: int, len: int)
    requires
        common_at(a, b, i, j, len),
    ensures
        is_substring(a.subrange(i - len, i), a),
        is_substring(a.subrange(i - len, i), b),
{
    let piece = a.subrange(i - len, i);
    assert(a.subrange(i - len, i - len + piece.len()) == piece);
    assert(b.subrange(j - len, j - len + piece.len()) == piece);
}

/// Comparing `a` with `b` finds the same length as comparing `b` with `a`.
pub proof fn lemma_longest_common_len_symmetric<T>(a: Seq<T>, b: Seq<T>, forth: int, back: int)
    requires
        is_longest_common_len(a, b, forth),
        is_longest_common_len(b, a, back),
    ensures
        forth == back,
{
    let (i, j) = choose|i: int, j: int| #[trigger] common_at(a, b, i, j, forth);
    assert(common_at(b, a, j, i, forth));
    let (k, l) = choose|k: int, l: int| #[trigger] common_at(b, a, k, l, back);
    assert(common_at(a, b, l, k, back));
}

/// The longest common substring is no longer than the shorter input.
pub proof fn lemma_longest_common_len_at_most_shorter<T>(a: Seq<T>, b: Seq<T>, len: int)
    requires
        is_longest_common_len(a, b, len),
    ensures
        0 <= len <= a.len(),
        len <= b.len(),
{
}

/// Where either input is empty the longest common length is zero, and there
/// is no matching text.
pub proof fn lemma_longest_common_of_empty<T>(a: Seq<T>, b: Seq<T>)
    requires
        a.len() == 0 || b.len() == 0,
    ensures
        is_longest_common_len(a, b, 0),
        forall|len: int| is_longest_common_len(a, b, len) ==> len == 0,
        forall|end: int| piece_ending_at(a, 0, end) is None,
{
    assert(a.subrange(0, 0) =~= b.subrange(0, 0));
    assert(common_at(a, b, 0, 0, 0));
}

/// The longest common length is zero exactly where the inputs share no
/// element.
pub proof fn lemma_longest_common_len_zero<T>(a: Seq<T>, b: Seq<T>, len: int)
    requires
        is_longest_common_len(a, b, len),
    ensures
        len == 0 <==> !shares_element(a, b),
{
    if shares_element(a, b) {
        let (i, j) = choose|i: int, j: int|
            0 <= i < a.len() && 0 <= j < b.len() && #[trigger] a[i] == #[trigger] b[j];
        assert(a.subrange(i, i + 1) =~= b.subrange(j, j + 1));
        assert(common_at(a, b, i + 1, j + 1, 1));
    }
    if len != 0 {
        let (i, j) = choose|i: int, j: int| #[trigger] common_at(a, b, i, j, len);
        assert(a.subrange(i - len, i)[0] == b.subrange(j - len, j)[0]);
        assert(a[i - len] == b[j - len]);
    }
}

/// Asking twice gives the same answer: the longest common length and the
/// first place where a piece of that length ends fix the matching text.
pub proof fn lemma_same_piece_again<T>(
    a: Seq<T>,
    b: Seq<T>,
    len: int,
    end: (int, int),
    len_again: int,
    end_again: (int, int),
)
    requires
        is_longest_common_len(a, b, len),
        is_first_end(a, b, len, end.0, end.1),
        is_longest_common_len(a, b, len_again),
        is_first_end(a, b, len_again, end_again.0, end_again.1),
    ensures
        len == len_again,
        end == end_again,
        piece_ending_at(a, len, end.0) == piece_ending_at(a, len_again, end_again.0),
{
    lemma_longest_common_len_unique(a, b, len, len_again);
    lemma_first_end_unique(a, b, len, end.0, end.1, end_again.0, end_again.1);
}

/// The cell at row `r`, column `c` has been filled once `rows_done` rows are
/// complete and the next row is filled up to column `cols_done`.
spec fn scanned(r: int, c: int, rows_done: int, cols_done: int) -> bool {
    r <= rows_done || (r == rows_done + 1 && c <= cols_done)
}

/// Among the cells filled so far, `best` is the largest entry and `(bi, bj)`
/// is the first cell that holds it.
spec fn best_so_far<T>(
    a: Seq<T>,
    b: Seq<T>,
    rows_done: int,
    cols_done: int,
    best: nat,
    bi: nat,
    bj: nat,
) -> bool {
    &&& bi <= a.len()
    &&& bj <= b.len()
    &&& scanned(bi as int, bj as int, rows_done, cols_done)
    &&& run_table(a, b, bi, bj) == best
    &&& forall|r: nat, c: nat|
        r <= a.len() && c <= b.len() && scanned(r as int, c as int, rows_done, cols_done)
            ==> #[trigger] run_table(a, b, r, c) <= best
    &&& forall|r: nat, c: nat|
        r <= a.len() && c <= b.len() && scanned(r as int, c as int, rows_done, cols_done)
            && #[trigger] run_table(a, b, r, c) == best ==> not_after(
            bi as int,
            bj as int,
            r as int,
            c as int,
        )
}

/// Once every cell is filled, the largest entry is the longest common length
/// and the first cell that holds it is where the reported piece ends.
proof fn lemma_best_of_all<T>(a: Seq<T>, b: Seq<T>, best: nat, bi: nat, bj: nat)
    requires
        best_so_far(a, b, a.len() as int, 0, best, bi, bj),
    ensures
        is_longest_common_len(a, b, best as int),
        is_first_end(a, b, best as int, bi as int, bj as int),
{
    lemma_run_bounded(a, b, bi, bj);
    lemma_run_is_common(a, b, bi, bj, best);
    assert(common_at(a, b, bi as int, bj as int, best as int));
    assert forall|i: int, j: int, k: int| #[trigger] common_at(a, b, i, j, k) implies k
        <= best by {
        lemma_run_is_common(a, b, i as nat, j as nat, k as nat);
        assert(run_table(a, b, i as nat, j as nat) <= best);
    }
    assert forall|i: int, j: int| #[trigger] common_at(a, b, i, j, best as int) implies not_after(
        bi as int,
        bj as int,
        i,
        j,
    ) by {
        lemma_run_is_common(a, b, i as nat, j as nat, best);
        assert(run_table(a, b, i as nat, j as nat) <= best);
    }
}

/// Two texts with the table of their matching runs and the place where the
/// longest run ends, so that the length and the matching text can be read off
/// later without comparing again.
#[derive(Debug)]
pub struct LCSubstring {
    /// The length of the longest common substring.
    pub substring_len: usize,
    grid: Vec<Vec<usize>>,
    max_substring_index: (usize, usize),
    left_chars: Vec<char>,
    right_chars: Vec<char>,
}

impl LCSubstring {
    /// The characters of the first text.
    pub closed spec fn left(&self) -> Seq<char> {
        self.left_chars@
    }

    /// The characters of the second text.
    pub closed spec fn right(&self) -> Seq<char> {
        self.right_chars@
    }

    /// The value held in the field `substring_len`.
    pub closed spec fn recorded_len(&self) -> nat {
        self.substring_len as nat
    }

    /// Row and column of the table at which the reported piece ends.
    pub closed spec fn recorded_end(&self) -> (nat, nat) {
        (self.max_substring_index.0 as nat, self.max_substring_index.1 as nat)
    }

    /// The table has one row more than the first text has characters and one
    /// column more than the second, every entry is the run entry of the two
    /// texts, the recorded length is the longest common length, and the
    /// recorded place is the first where a piece of that length ends.
    pub closed spec fn wf(&self) -> bool {
        &&& self.grid.len() == self.left_chars.len() + 1
        &&& forall|i: int|
            0 <= i <= self.left_chars.len() ==> (#[trigger] self.grid[i]).len()
                == self.right_chars.len() + 1
        &&& forall|i: int, j: int|
            0 <= i <= self.left_chars.len() && 0 <= j <= self.right_chars.len()
                ==> (#[trigger] self.grid[i][j]) == run_table(
                self.left_chars@,
                self.right_chars@,
                i as nat,
                j as nat,
            )
        &&& is_longest_common_len(
            self.left_chars@,
            self.right_chars@,
            self.substring_len as int,
        )
        &&& is_first_end(
            self.left_chars@,
            self.right_chars@,
            self.substring_len as int,
            self.max_substring_index.0 as int,
            self.max_substring_index.1 as int,
        )
    }

    /// A well-formed comparator records the longest common length of its two
    /// texts and the first place where a piece of that length ends.
    pub proof fn lemma_recorded(&self)
        requires
            self.wf(),
        ensures
            is_longest_common_len(self.left(), self.right(), self.recorded_len() as int),
            is_first_end(
                self.left(),
                self.right(),
                self.recorded_len() as int,
                self.recorded_end().0 as int,
                self.recorded_end().1 as int,
            ),
    {
    }

    /// The length of the longest common substring, read from the record.
    pub fn length(&self) -> (n: usize)
        requires
            self.wf(),
        ensures
            n == self.recorded_len(),
            is_longest_common_len(self.left(), self.right(), n as int),
    {
        self.substring_len
    }

    /// Compares `left` with `right`: fills the whole table, and records the
    /// length of their longest common substring and where it first ends.
    pub fn new_substring(left: String, right: String) -> (r: Self)
        ensures
            r.wf(),
            r.left() == left@,
            r.right() == right@,
            is_longest_common_len(left@, right@, r.recorded_len() as int),
            is_first_end(
                left@,
                right@,
                r.recorded_len() as int,
                r.recorded_end().0 as int,
                r.recorded_end().1 as int,
            ),
            r.recorded_len() <= left@.len(),
            r.recorded_len() <= right@.len(),
            left@.len() == 0 || right@.len() == 0 ==> r.recorded_len() == 0,
    {
        let left_chars = chars_of(left.as_str());
        let right_chars = chars_of(right.as_str());
        let left_len = left_chars.len();
        let right_len = right_chars.len();
        let mut grid = zero_grid(left_len, right_len);
        let mut substring_len: usize = 0;
        let mut max_substring_index: (usize, usize) = (0, 0);
        let ghost a = left_chars@;
        let ghost b = right_chars@;

        let mut i: usize = 0;
        while i < left_len
            invariant
                i <= left_len,
                left_len == a.len(),
                right_len == b.len(),
                a == left_chars@,
                b == right_chars@,
                grid.len() == left_len + 1,
                forall|r: int| 0 <= r <= left_len ==> (#[trigger] grid[r]).len() == right_len + 1,
                forall|r: int, c: int|
                    0 <= r <= i && 0 <= c <= right_len ==> (#[trigger] grid[r][c]) == run_table(
                        a,
                        b,
                        r as nat,
                        c as nat,
                    ),
                forall|r: int, c: int|
                    i < r <= left_len && 0 <= c <= right_len ==> (#[trigger] grid[r][c]) == 0,
                best_so_far(
                    a,
                    b,
                    i as int,
                    0,
                    substring_len as nat,
                    max_substring_index.0 as nat,
                    max_substring_index.1 as nat,
                ),
            decreases left_len - i,
        {
            let mut j: usize = 0;
            while j < right_len
                invariant
                    i < left_len,
                    j <= right_len,
                    left_len == a.len(),
                    right_len == b.len(),
                    a == left_chars@,
                    b == right_chars@,
                    grid.len() == left_len + 1,
                    forall|r: int|
                        0 <= r <= left_len ==> (#[trigger] grid[r]).len() == right_len + 1,
                    forall|r: int, c: int|
                        0 <= r <= i && 0 <= c <= right_len ==> (#[trigger] grid[r][c])
                            == run_table(a, b, r as nat, c as nat),
                    forall|c: int|
                        0 <= c <= j ==> (#[trigger] grid[i + 1][c]) == run_table(
                            a,
                            b,
                            (i + 1) as nat,
                            c as nat,
                        ),
                    forall|c: int| j < c <= right_len ==> (#[trigger] grid[i + 1][c]) == 0,
                    forall|r: int, c: int|
                        i + 1 < r <= left_len && 0 <= c <= right_len ==> (#[trigger] grid[r][c])
                            == 0,
                    best_so_far(
                        a,
                        b,
                        i as int,
                        j as int,
                        substring_len as nat,
                        max_substring_index.0 as nat,
                        max_substring_index.1 as nat,
                    ),
                decreases right_len - j,
            {
                if left_chars[i] == right_chars[j] {
                    proof {
                        lemma_run_bounded(a, b, i as nat, j as nat);
                    }
                    let run = grid[i][j] + 1;
                    grid[i + 1][j + 1] = run;
                    if substring_len < run {
                        max_substring_index = (i + 1, j + 1);
                        substring_len = run;
                    }
                }
                assert(grid[i + 1][j + 1] == run_table(a, b, (i + 1) as nat, (j + 1) as nat));
                j += 1;
            }
            i += 1;
        }

        proof {
            lemma_best_of_all(
                a,
                b,
                substring_len as nat,
                max_substring_index.0 as nat,
                max_substring_index.1 as nat,
            );
        }
        LCSubstring { substring_len, grid, max_substring_index, left_chars, right_chars }
    }

    /// The longest common substring as text, or `None` where the two texts
    /// share no character. Of several longest ones it is the one that ends
    /// first when the table is read row by row; it is cut out of the first
    /// text, character by character.
    pub fn get_longest_substring(&self) -> (r: Option<String>)
        requires
            self.wf(),
        ensures
            r.deep_view() == piece_ending_at(
                self.left(),
                self.recorded_len() as int,
                self.recorded_end().0 as int,
            ),
            is_longest_common_len(self.left(), self.right(), self.recorded_len() as int),
            is_first_end(
                self.left(),
                self.right(),
                self.recorded_len() as int,
                self.recorded_end().0 as int,
                self.recorded_end().1 as int,
            ),
            r is None <==> self.recorded_len() == 0,
            r matches Some(text) ==> {
                &&& text@.len() == self.recorded_len()
                &&& is_substring(text@, self.left())
                &&& is_substring(text@, self.right())
            },
    {
        if self.substring_len == 0 {
            return None;
        }
        let offset: usize = self.max_substring_index.0;
        proof {
            lemma_common_piece_is_substring(
                self.left_chars@,
                self.right_chars@,
                offset as int,
                self.max_substring_index.1 as int,
                self.substring_len as int,
            );
        }
        Some(text_of(&self.left_chars, offset - self.substring_len, offset))
    }
}

} // verus!

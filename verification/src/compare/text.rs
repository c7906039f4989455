//! Moving between text and the sequence of its characters. The comparators
//! work on whole characters, never on the bytes or code units that store them.

use vstd::prelude::*;

verus! {

broadcast use vstd::string::group_string_axioms;

/// `String::push` appends the given character to the end of the string.
pub assume_specification[ String::push ](s: &mut String, c: char)
    ensures
        final(s)@ == old(s)@.push(c),
;

/// The characters of `s`, in order.
pub(crate) fn chars_of(s: &str) -> (v: Vec<char>)
    ensures
        v@ == s@,
{
    let mut v: Vec<char> = Vec::new();
    for c in it: s.chars()
        invariant
            it.seq() == s@,
            v@ == s@.take(it.index() as int),
    {
        v.push(c);
    }
    v
}

/// The text spelled by `v[from..to]`.
pub(crate) fn text_of(v: &Vec<char>, from: usize, to: usize) -> (s: String)
    requires
        from <= to <= v.len(),
    ensures
        s@ == v@.subrange(from as int, to as int),
{
    let mut s = String::new();
    let mut i: usize = from;
    while i < to
        invariant
            from <= i <= to <= v.len(),
            s@ == v@.subrange(from as int, i as int),
        decreases to - i,
    {
        s.push(v[i]);
        i += 1;
    }
    s
}

/// The text spelled by `v` read from its last character to its first.
pub(crate) fn text_of_reversed(v: &Vec<char>) -> (s: String)
    ensures
        s@ == v@.reverse(),
{
    let mut s = String::new();
    let mut i: usize = v.len();
    while i > 0
        invariant
            i <= v.len(),
            s@ == v@.reverse().take(v.len() - i),
        decreases i,
    {
        i -= 1;
        s.push(v[i]);
    }
    s
}

/// A table of `rows + 1` rows and `cols + 1` columns that holds zero everywhere.
pub(crate) fn zero_grid(rows: usize, cols: usize) -> (grid: Vec<Vec<usize>>)
    ensures
        grid.len() == rows + 1,
        forall|i: int| 0 <= i <= rows ==> (#[trigger] grid[i]).len() == cols + 1,
        forall|i: int, j: int| 0 <= i <= rows && 0 <= j <= cols ==> (#[trigger] grid[i][j]) == 0,
{
    let mut grid: Vec<Vec<usize>> = Vec::new();
    grid.push(zero_row(cols));
    let mut i: usize = 0;
    while i < rows
        invariant
            i <= rows,
            grid.len() == i + 1,
            forall|r: int| 0 <= r <= i ==> (#[trigger] grid[r]).len() == cols + 1,
            forall|r: int, c: int| 0 <= r <= i && 0 <= c <= cols ==> (#[trigger] grid[r][c]) == 0,
        decreases rows - i,
    {
        grid.push(zero_row(cols));
        i += 1;
    }
    grid
}

/// A row of `cols + 1` zeros.
fn zero_row(cols: usize) -> (row: Vec<usize>)
    ensures
        row.len() == cols + 1,
        forall|j: int| 0 <= j <= cols ==> row[j] == 0,
{
    let mut row: Vec<usize> = Vec::new();
    row.push(0);
    let mut j: usize = 0;
    while j < cols
        invariant
            j <= cols,
            row.len() == j + 1,
            forall|c: int| 0 <= c <= j ==> row[c] == 0,
        decreases cols - j,
    {
        row.push(0);
        j += 1;
    }
    row
}

} // verus!

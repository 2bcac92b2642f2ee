//! The mathematical model of a Sudoku grid.
//!
//! Executable code works on `[[u32; 9]; 9]`; every contract speaks of its
//! view, a `Seq<Seq<u32>>` of nine rows of nine cells.

use vstd::prelude::*;

verus! {

/// The view of a board: the sequence of its rows, each row the sequence of
/// its cells.
pub open spec fn view_of(b: [[u32; 9]; 9]) -> Seq<Seq<u32>> {
    Seq::new(9, |r: int| b@[r]@)
}

/// A well-shaped grid: nine rows of nine cells.
pub open spec fn is_grid(g: Seq<Seq<u32>>) -> bool {
    &&& g.len() == 9
    &&& forall|r: int| 0 <= r < 9 ==> (#[trigger] g[r]).len() == 9
}

/// Every cell holds a value in `0..=9` (`0` means empty).
pub open spec fn values_in_range(g: Seq<Seq<u32>>) -> bool {
    forall|r: int, c: int| 0 <= r < 9 && 0 <= c < 9 ==> #[trigger] g[r][c] <= 9
}

/// Every cell holds a digit `1..=9`: no cell is empty.
pub open spec fn grid_complete(g: Seq<Seq<u32>>) -> bool {
    forall|r: int, c: int| 0 <= r < 9 && 0 <= c < 9 ==> 1 <= #[trigger] g[r][c] <= 9
}

/// The sum of the cells of one row or column.
pub open spec fn seq_sum(s: Seq<u32>) -> int
    decreases s.len(),
{
    if s.len() == 0 {
        0
    } else {
        seq_sum(s.drop_last()) + s.last()
    }
}

/// Column `c` of the grid, as a sequence of its nine cells.
pub open spec fn column_of(g: Seq<Seq<u32>>, c: int) -> Seq<u32> {
    Seq::new(9, |r: int| g[r][c])
}

/// A row passes the check when its nine cells are pairwise distinct and sum
/// to 45.
pub open spec fn row_valid(g: Seq<Seq<u32>>, r: int) -> bool {
    &&& g[r].no_duplicates()
    &&& seq_sum(g[r]) == 45
}

/// A column passes the check when its nine cells are pairwise distinct and
/// sum to 45.
pub open spec fn column_valid(g: Seq<Seq<u32>>, c: int) -> bool {
    &&& column_of(g, c).no_duplicates()
    &&& seq_sum(column_of(g, c)) == 45
}

/// What `is_valid_solution` decides: all nine rows and all nine columns
/// pass. Box constraints are deliberately not part of this check.
pub open spec fn valid_solution(g: Seq<Seq<u32>>) -> bool {
    &&& forall|r: int| 0 <= r < 9 ==> row_valid(g, r)
    &&& forall|c: int| 0 <= c < 9 ==> column_valid(g, c)
}

/// Nine cells holding each digit `1..=9` exactly once.
pub open spec fn permutation_of_digits(s: Seq<u32>) -> bool {
    &&& s.len() == 9
    &&& s.no_duplicates()
    &&& forall|i: int| 0 <= i < 9 ==> 1 <= #[trigger] s[i] <= 9
}

/// The top-left coordinate of the 3x3 box that row or column `x` falls in.
pub open spec fn box_origin(x: int) -> int {
    x - x % 3
}

/// `v` occurs somewhere in row `r`.
pub open spec fn value_in_row(g: Seq<Seq<u32>>, r: int, v: u32) -> bool {
    exists|c: int| 0 <= c < 9 && g[r][c] == v
}

/// `v` occurs somewhere in column `c`.
pub open spec fn value_in_column(g: Seq<Seq<u32>>, c: int, v: u32) -> bool {
    exists|r: int| 0 <= r < 9 && g[r][c] == v
}

/// `v` occurs somewhere in the 3x3 box whose top-left cell is `(br, bc)`.
pub open spec fn value_in_box(g: Seq<Seq<u32>>, br: int, bc: int, v: u32) -> bool {
    exists|i: int, j: int| 0 <= i < 3 && 0 <= j < 3 && #[trigger] g[br + i][bc + j] == v
}

/// Placing `v` at `(r, c)` breaks no constraint: `v` is absent from the
/// cell's row, column, and box.
pub open spec fn safe_at(g: Seq<Seq<u32>>, r: int, c: int, v: u32) -> bool {
    &&& !value_in_row(g, r, v)
    &&& !value_in_column(g, c, v)
    &&& !value_in_box(g, box_origin(r), box_origin(c), v)
}

/// Two cells share a row, a column, or a 3x3 box.
pub open spec fn same_unit(r1: int, c1: int, r2: int, c2: int) -> bool {
    ||| r1 == r2
    ||| c1 == c2
    ||| (box_origin(r1) == box_origin(r2) && box_origin(c1) == box_origin(c2))
}

/// `s` keeps every digit that was already placed in `g`.
pub open spec fn keeps_givens(s: Seq<Seq<u32>>, g: Seq<Seq<u32>>) -> bool {
    forall|r: int, c: int|
        0 <= r < 9 && 0 <= c < 9 && g[r][c] != 0 ==> #[trigger] s[r][c] == g[r][c]
}

/// Any two distinct cells of `s` that share a unit differ, whenever at least
/// one of the two was empty in `g`. This is exactly what the solver
/// guarantees of the cells it fills: it never checks the given digits of `g`
/// against each other.
pub open spec fn placements_distinct(s: Seq<Seq<u32>>, g: Seq<Seq<u32>>) -> bool {
    forall|r1: int, c1: int, r2: int, c2: int|
        #![trigger s[r1][c1], s[r2][c2]]
        0 <= r1 < 9 && 0 <= c1 < 9 && 0 <= r2 < 9 && 0 <= c2 < 9
            && !(r1 == r2 && c1 == c2) && same_unit(r1, c1, r2, c2)
            && (g[r1][c1] == 0 || g[r2][c2] == 0)
            ==> s[r1][c1] != s[r2][c2]
}

/// `s` is what the solver may return for the input `g`: a complete grid
/// that keeps the givens of `g` and in which every filled-in digit is
/// distinct from every other digit of its row, column, and box.
pub open spec fn solves(s: Seq<Seq<u32>>, g: Seq<Seq<u32>>) -> bool {
    &&& is_grid(s)
    &&& grid_complete(s)
    &&& keeps_givens(s, g)
    &&& placements_distinct(s, g)
}

/// The given digits of `g` themselves break no constraint: no two distinct
/// filled cells sharing a unit hold the same digit.
pub open spec fn rules_hold(g: Seq<Seq<u32>>) -> bool {
    forall|r1: int, c1: int, r2: int, c2: int|
        #![trigger g[r1][c1], g[r2][c2]]
        0 <= r1 < 9 && 0 <= c1 < 9 && 0 <= r2 < 9 && 0 <= c2 < 9
            && !(r1 == r2 && c1 == c2) && same_unit(r1, c1, r2, c2)
            && g[r1][c1] != 0 && g[r2][c2] != 0
            ==> g[r1][c1] != g[r2][c2]
}

/// The cells of `a` and `b` agree at every position that comes before
/// `(r, c)` in row-major order.
pub open spec fn grids_equal_before(a: Seq<Seq<u32>>, b: Seq<Seq<u32>>, r: int, c: int) -> bool {
    forall|r2: int, c2: int|
        0 <= r2 < 9 && 0 <= c2 < 9 && (r2 < r || (r2 == r && c2 < c))
            ==> #[trigger] a[r2][c2] == b[r2][c2]
}

/// Row-major lexicographic order on grids: `a` and `b` agree everywhere, or
/// `a` holds the smaller value at the first position where they differ.
pub open spec fn lex_le(a: Seq<Seq<u32>>, b: Seq<Seq<u32>>) -> bool {
    ||| forall|r: int, c: int| 0 <= r < 9 && 0 <= c < 9 ==> #[trigger] a[r][c] == b[r][c]
    ||| exists|r: int, c: int|
        0 <= r < 9 && 0 <= c < 9 && #[trigger] a[r][c] < b[r][c] && grids_equal_before(a, b, r, c)
}

/// How many cells of one row are empty.
pub open spec fn row_zeros(s: Seq<u32>) -> nat
    decreases s.len(),
{
    if s.len() == 0 {
        0
    } else {
        row_zeros(s.drop_last()) + (if s.last() == 0u32 {
            1nat
        } else {
            0nat
        })
    }
}

/// How many cells of the grid are empty; the solver's termination measure.
pub open spec fn grid_zeros(g: Seq<Seq<u32>>) -> nat
    decreases g.len(),
{
    if g.len() == 0 {
        0
    } else {
        grid_zeros(g.drop_last()) + row_zeros(g.last())
    }
}

} // verus!

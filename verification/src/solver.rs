//! The backtracking solver: fills the empty cells of a grid one at a time,
//! in row-major order, trying candidate digits in ascending order and
//! undoing a placement whenever it cannot be extended to a full grid.

use vstd::prelude::*;

use crate::grid::box_origin;
use crate::grid::grid_complete;
use crate::grid::grid_zeros;
use crate::grid::is_grid;
use crate::grid::grids_equal_before;
use crate::grid::keeps_givens;
use crate::grid::lex_le;
use crate::grid::placements_distinct;
use crate::grid::row_zeros;
use crate::grid::safe_at;
use crate::grid::same_unit;
use crate::grid::solves;
use crate::grid::value_in_box;
use crate::grid::value_in_column;
use crate::grid::value_in_row;
use crate::grid::values_in_range;
use crate::grid::view_of;
use vstd::arithmetic::div_mod::lemma_fundamental_div_mod;
use vstd::arithmetic::div_mod::lemma_fundamental_div_mod_converse;

verus! {

/// Why `solve` did not hand back a completed grid.
#[derive(Clone, Copy, Debug, PartialEq, Eq, Structural)]
pub enum SolveError {
    /// Every cell is already filled. An internal signal of the empty-cell
    /// scan only: at the top level a full grid is a success, so `solve`
    /// never returns this.
    AlreadyFilled,
    /// The search exhausted every candidate without completing the grid.
    NoSolution,
}

fn is_num_used_in_row(board: &[[u32; 9]; 9], row: usize, num: u32) -> (used: bool)
    requires
        row < 9,
    ensures
        used == value_in_row(view_of(*board), row as int, num),
{
    let ghost g = view_of(*board);
    for i in 0..9usize
        invariant
            g == view_of(*board),
            row < 9,
            forall|c: int| 0 <= c < i ==> g[row as int][c] != num,
    {
        if board[row][i] == num {
            assert(g[row as int][i as int] == num);
            return true;
        }
    }
    false
}

fn is_num_used_in_col(board: &[[u32; 9]; 9], col: usize, num: u32) -> (used: bool)
    requires
        col < 9,
    ensures
        used == value_in_column(view_of(*board), col as int, num),
{
    let ghost g = view_of(*board);
    for i in 0..9usize
        invariant
            g == view_of(*board),
            col < 9,
            forall|r: int| 0 <= r < i ==> g[r][col as int] != num,
    {
        if board[i][col] == num {
            assert(g[i as int][col as int] == num);
            return true;
        }
    }
    false
}

fn is_num_used_in_box(board: &[[u32; 9]; 9], row: usize, col: usize, num: u32) -> (used: bool)
    requires
        row <= 6,
        col <= 6,
    ensures
        used == value_in_box(view_of(*board), row as int, col as int, num),
{
    let ghost g = view_of(*board);
    for i in 0..3usize
        invariant
            g == view_of(*board),
            row <= 6,
            col <= 6,
            forall|i2: int, j2: int|
                0 <= i2 < i && 0 <= j2 < 3 ==> #[trigger] g[row as int + i2][col as int + j2] != num,
    {
        for j in 0..3usize
            invariant
                g == view_of(*board),
                row <= 6,
                col <= 6,
                i < 3,
                forall|i2: int, j2: int|
                    0 <= i2 < i && 0 <= j2 < 3 ==> #[trigger] g[row as int + i2][col as int + j2] != num,
            forall|j2: int| 0 <= j2 < j ==> #[trigger] g[row as int + i as int][col as int + j2] != num,
        {
            if board[i + row][j + col] == num {
                assert(g[row as int + i as int][col as int + j as int] == num);
                return true;
            }
        }
    }
    false
}

/// The coordinate of the top-left cell of the box that `x` falls in, and
/// its bounds.
proof fn lemma_box_origin_bounds(x: int)
    requires
        0 <= x < 9,
    ensures
        box_origin(x) == 3 * (x / 3),
        box_origin(x) % 3 == 0,
        0 <= box_origin(x) <= 6,
        0 <= x - box_origin(x) < 3,
{
    lemma_fundamental_div_mod(x, 3);
}

/// Placing `num` at `(row, col)` breaks no constraint: `num` is absent from
/// the cell's row, from its column, and from its 3x3 box.
fn is_location_safe(board: &[[u32; 9]; 9], row: usize, col: usize, num: u32) -> (safe: bool)
    requires
        row < 9,
        col < 9,
    ensures
        safe == safe_at(view_of(*board), row as int, col as int, num),
{
    proof {
        lemma_box_origin_bounds(row as int);
        lemma_box_origin_bounds(col as int);
    }
    let box_row = row - row % 3;
    let box_col = col - col % 3;
    !is_num_used_in_row(board, row, num)
        && (!is_num_used_in_col(board, col, num)
            && (!is_num_used_in_box(board, box_row, box_col, num)))
}

/// The first empty cell in row-major order, or `AlreadyFilled` when no cell
/// is empty.
fn find_empty_location(board: &[[u32; 9]; 9]) -> (loc: Result<(usize, usize), SolveError>)
    ensures
        match loc {
            Ok(rc) => rc.0 < 9 && rc.1 < 9 && view_of(*board)[rc.0 as int][rc.1 as int] == 0
                && forall|r: int, c: int|
                    0 <= r < 9 && 0 <= c < 9 && (r < rc.0 as int || (r == rc.0 as int && c < rc.1 as int))
                        ==> view_of(*board)[r][c] != 0,
            Err(e) => e == SolveError::AlreadyFilled && forall|r: int, c: int|
                0 <= r < 9 && 0 <= c < 9 ==> view_of(*board)[r][c] != 0,
        },
{
    let ghost g = view_of(*board);
    for row in 0..9usize
        invariant
            g == view_of(*board),
            forall|r: int, c: int| 0 <= r < row && 0 <= c < 9 ==> g[r][c] != 0,
    {
        for col in 0..9usize
            invariant
                g == view_of(*board),
                row < 9,
                forall|r: int, c: int| 0 <= r < row && 0 <= c < 9 ==> g[r][c] != 0,
                forall|c: int| 0 <= c < col ==> g[row as int][c] != 0,
        {
            if board[row][col] == 0 {
                return Ok((row, col));
            }
        }
    }
    Err(SolveError::AlreadyFilled)
}

/// A cell of the box whose top-left coordinate is `b` lies in no other box.
proof fn lemma_box_member_origin(b: int, i: int)
    requires
        0 <= b,
        b % 3 == 0,
        0 <= i < 3,
    ensures
        box_origin(b + i) == b,
{
    lemma_fundamental_div_mod(b, 3);
    lemma_fundamental_div_mod_converse(b + i, 3, b / 3, i);
}

/// Updating one cell of one row changes no other cell of the grid.
proof fn lemma_cell_update(g: Seq<Seq<u32>>, r: int, c: int, v: u32)
    requires
        is_grid(g),
        0 <= r < 9,
        0 <= c < 9,
    ensures
        is_grid(g.update(r, g[r].update(c, v))),
        g.update(r, g[r].update(c, v))[r][c] == v,
        forall|a: int, b: int|
            0 <= a < 9 && 0 <= b < 9 && !(a == r && b == c)
                ==> #[trigger] g.update(r, g[r].update(c, v))[a][b] == g[a][b],
{
}

/// Filling an empty cell takes one off the number of empty cells of a row.
proof fn lemma_row_zeros_update(s: Seq<u32>, j: int, v: u32)
    requires
        0 <= j < s.len(),
        s[j] == 0,
        v != 0,
    ensures
        row_zeros(s.update(j, v)) + 1 == row_zeros(s),
    decreases s.len(),
{
    if j == s.len() - 1 {
        assert(s.update(j, v).drop_last() =~= s.drop_last());
        assert(s.update(j, v).last() == v);
    } else {
        assert(s.update(j, v).drop_last() =~= s.drop_last().update(j, v));
        assert(s.update(j, v).last() == s.last());
        lemma_row_zeros_update(s.drop_last(), j, v);
    }
}

/// Replacing one row replaces its share of the empty-cell count.
proof fn lemma_grid_zeros_update(g: Seq<Seq<u32>>, r: int, row2: Seq<u32>)
    requires
        0 <= r < g.len(),
    ensures
        grid_zeros(g.update(r, row2)) + row_zeros(g[r]) == grid_zeros(g) + row_zeros(row2),
    decreases g.len(),
{
    if r == g.len() - 1 {
        assert(g.update(r, row2).drop_last() =~= g.drop_last());
        assert(g.update(r, row2).last() == row2);
    } else {
        assert(g.update(r, row2).drop_last() =~= g.drop_last().update(r, row2));
        assert(g.update(r, row2).last() == g.last());
        lemma_grid_zeros_update(g.drop_last(), r, row2);
    }
}

/// Whatever solves `g` holds, at each cell that `g` leaves empty, a digit
/// whose placement in `g` breaks no constraint.
proof fn lemma_solution_cell_is_safe(g: Seq<Seq<u32>>, s: Seq<Seq<u32>>, r: int, c: int)
    requires
        solves(s, g),
        0 <= r < 9,
        0 <= c < 9,
        g[r][c] == 0,
    ensures
        1 <= s[r][c] <= 9,
        safe_at(g, r, c, s[r][c]),
{
    let v = s[r][c];
    lemma_box_origin_bounds(r);
    lemma_box_origin_bounds(c);
    if value_in_row(g, r, v) {
        let c2 = choose|c2: int| 0 <= c2 < 9 && g[r][c2] == v;
        assert(s[r][c2] == g[r][c2]);
        assert(same_unit(r, c, r, c2));
        assert(s[r][c] != s[r][c2]);
        assert(false);
    }
    if value_in_column(g, c, v) {
        let r2 = choose|r2: int| 0 <= r2 < 9 && g[r2][c] == v;
        assert(s[r2][c] == g[r2][c]);
        assert(same_unit(r, c, r2, c));
        assert(s[r][c] != s[r2][c]);
        assert(false);
    }
    if value_in_box(g, box_origin(r), box_origin(c), v) {
        let (i, j) = choose|i: int, j: int|
            0 <= i < 3 && 0 <= j < 3 && #[trigger] g[box_origin(r) + i][box_origin(c) + j] == v;
        let r2 = box_origin(r) + i;
        let c2 = box_origin(c) + j;
        lemma_box_member_origin(box_origin(r), i);
        lemma_box_member_origin(box_origin(c), j);
        assert(s[r2][c2] == g[r2][c2]);
        assert(same_unit(r, c, r2, c2));
        assert(s[r][c] != s[r2][c2]);
        assert(false);
    }
}

/// A solution of `g` that holds `v` at the empty cell `(r, c)` also solves
/// the grid in which `v` stands placed there.
proof fn lemma_solves_after_placing(g: Seq<Seq<u32>>, r: int, c: int, v: u32, s: Seq<Seq<u32>>)
    requires
        is_grid(g),
        0 <= r < 9,
        0 <= c < 9,
        g[r][c] == 0,
        solves(s, g),
        s[r][c] == v,
    ensures
        solves(s, g.update(r, g[r].update(c, v))),
{
    let g1 = g.update(r, g[r].update(c, v));
    lemma_cell_update(g, r, c, v);
    assert(keeps_givens(s, g1)) by {
        assert forall|a: int, b: int|
            0 <= a < 9 && 0 <= b < 9 && g1[a][b] != 0 implies #[trigger] s[a][b] == g1[a][b] by {
            if !(a == r && b == c) {
                assert(g1[a][b] == g[a][b]);
            }
        }
    }
    assert(placements_distinct(s, g1)) by {
        assert forall|r1: int, c1: int, r2: int, c2: int|
            #![trigger s[r1][c1], s[r2][c2]]
            0 <= r1 < 9 && 0 <= c1 < 9 && 0 <= r2 < 9 && 0 <= c2 < 9 && !(r1 == r2 && c1 == c2)
                && same_unit(r1, c1, r2, c2) && (g1[r1][c1] == 0 || g1[r2][c2] == 0)
            implies s[r1][c1] != s[r2][c2] by {
            assert(g1[r][c] == v && v >= 1);
            assert(g[r1][c1] == 0 || g[r2][c2] == 0);
        }
    }
}

/// A solution of the grid in which `v` stands at `(r, c)` also solves the
/// grid with that cell empty again, provided the placement was safe.
proof fn lemma_solves_after_undoing(g: Seq<Seq<u32>>, r: int, c: int, v: u32, s: Seq<Seq<u32>>)
    requires
        is_grid(g),
        0 <= r < 9,
        0 <= c < 9,
        g[r][c] == 0,
        1 <= v <= 9,
        safe_at(g, r, c, v),
        solves(s, g.update(r, g[r].update(c, v))),
    ensures
        solves(s, g),
{
    let g1 = g.update(r, g[r].update(c, v));
    lemma_cell_update(g, r, c, v);
    lemma_box_origin_bounds(r);
    lemma_box_origin_bounds(c);
    assert(s[r][c] == v);
    assert(keeps_givens(s, g)) by {
        assert forall|a: int, b: int|
            0 <= a < 9 && 0 <= b < 9 && g[a][b] != 0 implies #[trigger] s[a][b] == g[a][b] by {
            assert(g1[a][b] == g[a][b]);
        }
    }
    // No cell of the row, column, or box of `(r, c)` that is filled in `g`
    // holds `v`: that is exactly what `safe_at` says.
    assert forall|r2: int, c2: int|
        0 <= r2 < 9 && 0 <= c2 < 9 && !(r2 == r && c2 == c) && same_unit(r, c, r2, c2)
            && g[r2][c2] != 0 implies #[trigger] g[r2][c2] != v by {
        if g[r2][c2] == v {
            if r2 == r {
                assert(value_in_row(g, r, v));
            } else if c2 == c {
                assert(value_in_column(g, c, v));
            } else {
                let i = r2 - box_origin(r2);
                let j = c2 - box_origin(c2);
                lemma_box_origin_bounds(r2);
                lemma_box_origin_bounds(c2);
                assert(g[box_origin(r) + i][box_origin(c) + j] == v);
                assert(value_in_box(g, box_origin(r), box_origin(c), v));
            }
            assert(false);
        }
    }
    assert(placements_distinct(s, g)) by {
        assert forall|r1: int, c1: int, r2: int, c2: int|
            #![trigger s[r1][c1], s[r2][c2]]
            0 <= r1 < 9 && 0 <= c1 < 9 && 0 <= r2 < 9 && 0 <= c2 < 9 && !(r1 == r2 && c1 == c2)
                && same_unit(r1, c1, r2, c2) && (g[r1][c1] == 0 || g[r2][c2] == 0)
            implies s[r1][c1] != s[r2][c2] by {
            if g1[r1][c1] == 0 || g1[r2][c2] == 0 {
                assert(s[r1][c1] != s[r2][c2]);
            } else if r1 == r && c1 == c {
                assert(g[r2][c2] == g1[r2][c2]);
                assert(s[r2][c2] == g[r2][c2]);
                assert(g[r2][c2] != v);
                assert(s[r1][c1] == v);
            } else if r2 == r && c2 == c {
                assert(g[r1][c1] == g1[r1][c1]);
                assert(s[r1][c1] == g[r1][c1]);
                assert(same_unit(r, c, r1, c1));
                assert(g[r1][c1] != v);
                assert(s[r2][c2] == v);
            } else {
                assert(g1[r1][c1] == g[r1][c1] && g1[r2][c2] == g[r2][c2]);
                assert(false);
            }
        }
    }
}

/// A grid with no empty cell left solves itself.
proof fn lemma_filled_grid_solves_itself(g: Seq<Seq<u32>>)
    requires
        is_grid(g),
        values_in_range(g),
        forall|r: int, c: int| 0 <= r < 9 && 0 <= c < 9 ==> #[trigger] g[r][c] != 0,
    ensures
        solves(g, g),
{
}

/// Depth-first backtracking over the working grid. Succeeds exactly when
/// some grid solves the grid it was given; on success the working grid is
/// the lexicographically least such solution, on failure it is left as it
/// was.
fn go(board: &mut [[u32; 9]; 9]) -> (found: bool)
    requires
        values_in_range(view_of(*old(board))),
    ensures
        found ==> solves(view_of(*final(board)), view_of(*old(board))) && forall|s: Seq<Seq<u32>>|
            #[trigger] solves(s, view_of(*old(board)))
                ==> lex_le(view_of(*final(board)), s),
        !found ==> view_of(*final(board)) == view_of(*old(board)) && forall|s: Seq<Seq<u32>>|
            !solves(s, view_of(*old(board))),
    decreases grid_zeros(view_of(*board)),
{
    let ghost g0 = view_of(*board);
    let maybe_empty_location = find_empty_location(board);

    match maybe_empty_location {
        Ok((row, col)) => {
            let mut num: u32 = 1;
            while num <= 9
                invariant
                    1 <= num <= 10,
                    row < 9,
                    col < 9,
                    g0 == view_of(*old(board)),
                    view_of(*board) == g0,
                    values_in_range(g0),
                    g0[row as int][col as int] == 0,
                    forall|r2: int, c2: int|
                        0 <= r2 < 9 && 0 <= c2 < 9 && (r2 < row as int || (r2 == row as int && c2
                            < col as int)) ==> #[trigger] g0[r2][c2] != 0,
                    forall|s: Seq<Seq<u32>>| #[trigger] solves(s, g0)
                        ==> !(s[row as int][col as int] < num),
                decreases 10 - num,
            {
                if is_location_safe(board, row, col, num) {
                    let ghost g1 = g0.update(row as int, g0[row as int].update(col as int, num));
                    board[row][col] = num;
                    proof {
                        assert(view_of(*board) =~~= g1);
                        lemma_row_zeros_update(g0[row as int], col as int, num);
                        lemma_grid_zeros_update(
                            g0,
                            row as int,
                            g0[row as int].update(col as int, num),
                        );
                        assert(grid_zeros(g1) + 1 == grid_zeros(g0));
                        lemma_cell_update(g0, row as int, col as int, num);
                        assert(values_in_range(g1)) by {
                            assert forall|a: int, b: int|
                                0 <= a < 9 && 0 <= b < 9 implies #[trigger] g1[a][b] <= 9 by {
                                if !(a == row as int && b == col as int) {
                                    assert(g1[a][b] == g0[a][b]);
                                }
                            }
                        }
                    }
                    if go(board) {
                        proof {
                            let w = view_of(*board);
                            lemma_solves_after_undoing(g0, row as int, col as int, num, w);
                            assert(w[row as int][col as int] == num);
                            assert forall|s: Seq<Seq<u32>>| #[trigger] solves(s, g0)
                                implies lex_le(w, s) by {
                                if s[row as int][col as int] == num {
                                    lemma_solves_after_placing(g0, row as int, col as int, num, s);
                                } else {
                                    // the first difference is at (row, col), where the
                                    // returned grid holds the smaller digit
                                    assert(num < s[row as int][col as int]);
                                    assert(grids_equal_before(w, s, row as int, col as int)) by {
                                        assert forall|r2: int, c2: int|
                                            0 <= r2 < 9 && 0 <= c2 < 9 && (r2 < row as int || (r2
                                                == row as int && c2 < col as int))
                                            implies #[trigger] w[r2][c2] == s[r2][c2] by {
                                            assert(g0[r2][c2] != 0);
                                            assert(g1[r2][c2] == g0[r2][c2]);
                                            assert(w[r2][c2] == g1[r2][c2]);
                                            assert(s[r2][c2] == g0[r2][c2]);
                                        }
                                    }
                                    assert(w[row as int][col as int] < s[row as int][col as int]);
                                }
                            }
                        }
                        return true;
                    }
                    let ghost g2 = view_of(*board);
                    board[row][col] = 0;
                    proof {
                        assert(g2 == g1);
                        assert(view_of(*board) =~~= g2.update(
                            row as int,
                            g2[row as int].update(col as int, 0u32),
                        ));
                        assert(g1[row as int] == g0[row as int].update(col as int, num));
                        assert(g1[row as int].update(col as int, 0u32) =~= g0[row as int]);
                        assert(view_of(*board) =~~= g0);
                        assert forall|s: Seq<Seq<u32>>| #[trigger] solves(s, g0)
                            implies s[row as int][col as int] != num by {
                            if s[row as int][col as int] == num {
                                lemma_solves_after_placing(
                                    g0,
                                    row as int,
                                    col as int,
                                    num,
                                    s,
                                );
                            }
                        }
                    }
                } else {
                    proof {
                        assert forall|s: Seq<Seq<u32>>| #[trigger] solves(s, g0)
                            implies s[row as int][col as int] != num by {
                            lemma_solution_cell_is_safe(g0, s, row as int, col as int);
                        }
                    }
                }
                num = num + 1;
            }
            proof {
                assert forall|s: Seq<Seq<u32>>| !(#[trigger] solves(s, g0)) by {
                    if solves(s, g0) {
                        lemma_solution_cell_is_safe(g0, s, row as int, col as int);
                    }
                }
            }
            false
        },
        Err(_) => {
            proof {
                lemma_filled_grid_solves_itself(g0);
                // a full grid is its own only solution, hence the least one
                assert forall|s: Seq<Seq<u32>>| #[trigger] solves(s, g0)
                    implies lex_le(g0, s) by {
                    assert forall|r: int, c: int|
                        0 <= r < 9 && 0 <= c < 9 implies #[trigger] g0[r][c] == s[r][c] by {
                        assert(g0[r][c] != 0);
                    }
                }
            }
            true  // already filled
        },
    }
}

/// Computes a completed grid consistent with the Sudoku placement rules for
/// the partially filled input `board`, or reports that none exists.
///
/// The input is read-only: the search works on a private copy. Cells holding
/// `0` are empty; the remaining cells are givens, which the result keeps. As
/// in the classic formulation, the givens are never validated against each
/// other: the search only checks each digit it places itself, which is what
/// `solves` states. On a grid with no empty cell the search succeeds at
/// once, so such a grid is returned unchanged.
///
/// The search is deterministic: cells are filled in row-major order and
/// candidates tried in ascending order, so the result is the least grid, in
/// row-major lexicographic order, among all grids that solve the input.
pub fn solve(board: &[[u32; 9]; 9]) -> (result: Result<[[u32; 9]; 9], SolveError>)
    requires
        values_in_range(view_of(*board)),
    ensures
        (match result {
            Ok(solution) => solves(view_of(solution), view_of(*board)) && forall|s: Seq<Seq<u32>>|
                #[trigger] solves(s, view_of(*board)) ==> lex_le(view_of(solution), s),
            Err(e) => e == SolveError::NoSolution && forall|s: Seq<Seq<u32>>|
                !solves(s, view_of(*board)),
        }),
        grid_complete(view_of(*board)) ==> (result matches Ok(solution) && view_of(solution)
            == view_of(*board)),
{
    let mut grid: [[u32; 9]; 9] = *board;

    if go(&mut grid) {
        proof {
            if grid_complete(view_of(*board)) {
                assert forall|r: int| 0 <= r < 9 implies view_of(grid)[r] =~= view_of(
                    *board,
                )[r] by {
                    assert forall|c: int| 0 <= c < 9 implies view_of(grid)[r][c] == view_of(
                        *board,
                    )[r][c] by {
                        assert(view_of(*board)[r][c] != 0);
                    }
                }
                assert(view_of(grid) =~= view_of(*board));
            }
        }
        Ok(grid)
    } else {
        proof {
            if grid_complete(view_of(*board)) {
                assert(forall|r: int, c: int|
                    0 <= r < 9 && 0 <= c < 9 ==> #[trigger] view_of(*board)[r][c] != 0);
                lemma_filled_grid_solves_itself(view_of(*board));
                assert(false);
            }
        }
        Err(SolveError::NoSolution)
    }
}

} // verus!

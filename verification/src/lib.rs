//! A verified Sudoku engine: a row/column validity check for completed
//! grids and a backtracking solver for partially filled grids.
//!
//! A grid is a 9x9 matrix of `u32` values; `0` marks an empty cell and
//! `1..=9` mark placed digits.

mod grid;
mod checker;
mod solver;

pub use crate::grid::box_origin;
pub use crate::grid::column_of;
pub use crate::grid::column_valid;
pub use crate::grid::grid_complete;
pub use crate::grid::grids_equal_before;
pub use crate::grid::grid_zeros;
pub use crate::grid::is_grid;
pub use crate::grid::keeps_givens;
pub use crate::grid::lex_le;
pub use crate::grid::permutation_of_digits;
pub use crate::grid::placements_distinct;
pub use crate::grid::row_valid;
pub use crate::grid::row_zeros;
pub use crate::grid::rules_hold;
pub use crate::grid::safe_at;
pub use crate::grid::same_unit;
pub use crate::grid::seq_sum;
pub use crate::grid::solves;
pub use crate::grid::valid_solution;
pub use crate::grid::value_in_box;
pub use crate::grid::value_in_column;
pub use crate::grid::value_in_row;
pub use crate::grid::values_in_range;
pub use crate::grid::view_of;

pub use crate::checker::is_valid_solution;
pub use crate::checker::lemma_column_violation_rejected;
pub use crate::checker::lemma_permutation_filled_grid_is_valid;
pub use crate::checker::lemma_permutation_sums_to_45;
pub use crate::checker::lemma_row_violation_rejected;
pub use crate::checker::lemma_solution_of_consistent_grid_is_valid;

pub use crate::solver::solve;
pub use crate::solver::SolveError;

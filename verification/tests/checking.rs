use sudoku::is_valid_solution;
use sudoku::solve;
use sudoku::SolveError;

#[test]
fn is_valid_solution_should_return_false_in_case_rows_do_not_use_digits_1_to_9() {
    let board = [
        [1, 2, 3, 4, 5, 6, 7, 8, 10],
        [11, 12, 13, 14, 15, 16, 17, 18, 19],
        [21, 22, 23, 24, 25, 26, 27, 28, 29],
        [31, 32, 33, 34, 35, 36, 37, 38, 39],
        [41, 42, 43, 44, 45, 46, 47, 48, 49],
        [51, 52, 53, 54, 55, 56, 57, 58, 59],
        [61, 62, 63, 64, 65, 66, 67, 68, 69],
        [71, 72, 73, 74, 75, 76, 77, 78, 79],
        [81, 82, 83, 84, 85, 86, 87, 88, 89],
    ];
    assert_eq!(is_valid_solution(&board), false)
}

#[test]
fn is_valid_solution_should_return_false_in_case_colums_do_not_use_digits_1_to_9() {
    let board = [
        [1, 2, 3, 4, 5, 6, 7, 8, 9],
        [12, 2, 3, 4, 5, 6, 7, 8, 9],
        [13, 2, 3, 4, 5, 6, 7, 8, 9],
        [14, 2, 3, 4, 5, 6, 7, 8, 9],
        [15, 2, 3, 4, 5, 6, 7, 8, 9],
        [16, 2, 3, 4, 5, 6, 7, 8, 9],
        [17, 2, 3, 4, 5, 6, 7, 8, 9],
        [18, 2, 3, 4, 5, 6, 7, 8, 9],
        [19, 2, 3, 4, 5, 6, 7, 8, 9],
    ];
    assert_eq!(is_valid_solution(&board), false)
}

#[test]
fn is_valid_solution_should_return_false_in_case_rows_have_duplicate_numbers() {
    let board = [
        [1, 2, 3, 4, 5, 6, 7, 8, 8],
        [1, 2, 3, 4, 5, 6, 7, 8, 8],
        [1, 2, 3, 4, 5, 6, 7, 8, 8],
        [1, 2, 3, 4, 5, 6, 7, 8, 8],
        [1, 2, 3, 4, 5, 6, 7, 8, 8],
        [1, 2, 3, 4, 5, 6, 7, 8, 8],
        [1, 2, 3, 4, 5, 6, 7, 8, 8],
        [1, 2, 3, 4, 5, 6, 7, 8, 8],
        [1, 2, 3, 4, 5, 6, 7, 8, 8],
    ];
    assert_eq!(is_valid_solution(&board), false)
}

#[test]
fn is_valid_solution_should_return_false_in_case_colums_have_duplicate_numbers() {
    let board = [
        [1, 2, 3, 4, 5, 6, 7, 8, 9],
        [1, 2, 3, 4, 5, 6, 7, 8, 9],
        [1, 2, 3, 4, 5, 6, 7, 8, 9],
        [1, 2, 3, 4, 5, 6, 7, 8, 9],
        [1, 2, 3, 4, 5, 6, 7, 8, 9],
        [1, 2, 3, 4, 5, 6, 7, 8, 9],
        [1, 2, 3, 4, 5, 6, 7, 8, 9],
        [1, 2, 3, 4, 5, 6, 7, 8, 9],
        [1, 2, 3, 4, 5, 6, 7, 8, 9],
    ];
    assert_eq!(is_valid_solution(&board), false)
}

#[test]
fn is_valid_solution_should_return_true_in_case_of_valid_solution() {
    let board = [
        [5, 3, 9, 8, 7, 6, 4, 1, 2],
        [7, 2, 8, 3, 1, 4, 9, 6, 5],
        [6, 4, 1, 2, 9, 5, 7, 3, 8],
        [4, 6, 2, 5, 3, 9, 8, 7, 1],
        [3, 8, 5, 7, 2, 1, 6, 4, 9],
        [1, 9, 7, 4, 6, 8, 2, 5, 3],
        [2, 5, 6, 1, 8, 7, 3, 9, 4],
        [9, 1, 3, 6, 4, 2, 5, 8, 7],
        [8, 7, 4, 9, 5, 3, 1, 2, 6],
    ];

    assert_eq!(is_valid_solution(&board), true)
}

// The check looks at rows and columns only. A grid whose rows and columns
// are all permutations of 1..=9 is accepted even where a 3x3 box holds a
// digit twice, and, being complete, it is returned unchanged by the solver.
#[test]
fn is_valid_solution_accepts_grid_that_breaks_only_box_constraints() {
    let mut board = [[0u32; 9]; 9];
    for r in 0..9usize {
        for c in 0..9usize {
            board[r][c] = ((r + c) % 9) as u32 + 1;
        }
    }
    // rows 0 and 1 both place 2 inside the top-left box
    assert_eq!(board[0][1], 2);
    assert_eq!(board[1][0], 2);
    assert_eq!(is_valid_solution(&board), true);
    assert_eq!(solve(&board), Ok(board));
}

// A row of nine distinct values summing to 45 that are not the digits
// 1..=9 cannot arise from values bounded by 9; out-of-range values are
// caught by the sum or the distinctness side of the check.
#[test]
fn is_valid_solution_rejects_row_with_value_out_of_range() {
    let mut board = [[0u32; 9]; 9];
    for r in 0..9usize {
        for c in 0..9usize {
            board[r][c] = ((r + c) % 9) as u32 + 1;
        }
    }
    // 9 -> 0 keeps the row distinct but drops the sum below 45
    board[0][8] = 0;
    assert_eq!(is_valid_solution(&board), false);
}

#[test]
fn is_valid_solution_rejects_all_empty_grid() {
    let board = [[0u32; 9]; 9];
    assert_eq!(is_valid_solution(&board), false);
}

#[test]
fn unsolvable_grid_is_rejected_and_reported() {
    // the first empty cell (0, 0) admits no digit: 1..=8 stand in its row,
    // 9 stands in its column
    let board = [
        [0, 1, 2, 3, 4, 5, 6, 7, 8],
        [9, 0, 0, 0, 0, 0, 0, 0, 0],
        [0, 0, 0, 0, 0, 0, 0, 0, 0],
        [0, 0, 0, 0, 0, 0, 0, 0, 0],
        [0, 0, 0, 0, 0, 0, 0, 0, 0],
        [0, 0, 0, 0, 0, 0, 0, 0, 0],
        [0, 0, 0, 0, 0, 0, 0, 0, 0],
        [0, 0, 0, 0, 0, 0, 0, 0, 0],
        [0, 0, 0, 0, 0, 0, 0, 0, 0],
    ];
    assert_eq!(is_valid_solution(&board), false);
    assert_eq!(solve(&board), Err(SolveError::NoSolution));
}

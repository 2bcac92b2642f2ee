//! The validity check for completed grids: every row and every column must
//! hold nine pairwise distinct values summing to 45.

use vstd::prelude::*;

use crate::grid::column_of;
use crate::grid::column_valid;
use crate::grid::is_grid;
use crate::grid::keeps_givens;
use crate::grid::permutation_of_digits;
use crate::grid::row_valid;
use crate::grid::rules_hold;
use crate::grid::same_unit;
use crate::grid::seq_sum;
use crate::grid::solves;
use crate::grid::valid_solution;
use crate::grid::view_of;
use vstd::set_lib::lemma_int_range;
use vstd::set_lib::lemma_len_subset;
use vstd::set_lib::set_int_range;

verus! {

/// Removing one cell takes its value off the sum.
proof fn lemma_seq_sum_remove(s: Seq<u32>, i: int)
    requires
        0 <= i < s.len(),
    ensures
        seq_sum(s.remove(i)) == seq_sum(s) - s[i],
    decreases s.len(),
{
    if i == s.len() - 1 {
        assert(s.remove(i) =~= s.drop_last());
    } else {
        assert(s.remove(i).drop_last() =~= s.drop_last().remove(i));
        assert(s.remove(i).last() == s.last());
        lemma_seq_sum_remove(s.drop_last(), i);
    }
}

/// Pigeonhole: `d` pairwise distinct values drawn from `1..=d` must include
/// `d` itself.
proof fn lemma_distinct_bounded_contains_top(s: Seq<u32>, d: nat)
    requires
        s.len() == d,
        d >= 1,
        s.no_duplicates(),
        forall|i: int| 0 <= i < s.len() ==> 1 <= #[trigger] s[i] <= d,
    ensures
        exists|i: int| 0 <= i < s.len() && s[i] == d,
{
    if forall|i: int| 0 <= i < s.len() ==> #[trigger] s[i] != d {
        let t = s.map_values(|x: u32| x as int);
        assert(t.no_duplicates()) by {
            assert forall|i: int, j: int|
                0 <= i < t.len() && 0 <= j < t.len() && i != j implies t[i] != t[j] by {
                assert(s[i] != s[j]);
            }
        }
        t.unique_seq_to_set();
        assert(t.to_set().subset_of(set_int_range(1, d as int))) by {
            assert forall|x: int| t.to_set().contains(x) implies set_int_range(
                1,
                d as int,
            ).contains(x) by {
                let i = choose|i: int| 0 <= i < t.len() && t[i] == x;
                assert(s[i] != d);
            }
        }
        lemma_int_range(1, d as int);
        lemma_len_subset(t.to_set(), set_int_range(1, d as int));
        assert(false);
    }
}

/// `d` pairwise distinct values drawn from `1..=d` sum to `d * (d + 1) / 2`;
/// they are exactly the values `1..=d`, each taken once.
proof fn lemma_distinct_bounded_sum(s: Seq<u32>, d: nat)
    requires
        s.len() == d,
        s.no_duplicates(),
        forall|i: int| 0 <= i < s.len() ==> 1 <= #[trigger] s[i] <= d,
    ensures
        2 * seq_sum(s) == d * (d + 1),
    decreases d,
{
    if d == 0 {
        assert(seq_sum(s) == 0);
    } else {
        lemma_distinct_bounded_contains_top(s, d);
        let i = choose|i: int| 0 <= i < s.len() && s[i] == d;
        let rest = s.remove(i);
        assert(rest.len() == d - 1);
        assert(rest.no_duplicates()) by {
            assert forall|a: int, b: int|
                0 <= a < rest.len() && 0 <= b < rest.len() && a != b implies rest[a] != rest[b] by {
                assert(rest[a] == if a < i { s[a] } else { s[a + 1] });
                assert(rest[b] == if b < i { s[b] } else { s[b + 1] });
            }
        }
        assert(forall|k: int| 0 <= k < rest.len() ==> 1 <= #[trigger] rest[k] <= d - 1) by {
            assert forall|k: int| 0 <= k < rest.len() implies 1 <= #[trigger] rest[k] <= d - 1 by {
                assert(rest[k] == if k < i { s[k] } else { s[k + 1] });
                if k < i {
                    assert(s[k] != s[i]);
                } else {
                    assert(s[k + 1] != s[i]);
                }
            }
        }
        lemma_seq_sum_remove(s, i);
        lemma_distinct_bounded_sum(rest, (d - 1) as nat);
        assert(2 * seq_sum(s) == (d - 1) * d + 2 * d) by {
            assert(2 * seq_sum(rest) == (d - 1) * d);
        }
        assert((d - 1) * d + 2 * d == d * (d + 1)) by (nonlinear_arith);
    }
}

/// A permutation of the digits one through nine sums to 45.
pub proof fn lemma_permutation_sums_to_45(s: Seq<u32>)
    requires
        permutation_of_digits(s),
    ensures
        seq_sum(s) == 45,
{
    lemma_distinct_bounded_sum(s, 9);
}

/// Law: a grid in which every row and every column is a permutation of the
/// digits one through nine is accepted by `is_valid_solution`.
pub proof fn lemma_permutation_filled_grid_is_valid(g: Seq<Seq<u32>>)
    requires
        is_grid(g),
        forall|r: int| 0 <= r < 9 ==> permutation_of_digits(#[trigger] g[r]),
        forall|c: int| 0 <= c < 9 ==> permutation_of_digits(#[trigger] column_of(g, c)),
    ensures
        valid_solution(g),
{
    assert forall|r: int| 0 <= r < 9 implies row_valid(g, r) by {
        lemma_permutation_sums_to_45(g[r]);
    }
    assert forall|c: int| 0 <= c < 9 implies column_valid(g, c) by {
        lemma_permutation_sums_to_45(column_of(g, c));
    }
}

/// Law: a grid with any row that does not sum to 45 or does not hold nine
/// pairwise distinct values is rejected by `is_valid_solution`.
pub proof fn lemma_row_violation_rejected(g: Seq<Seq<u32>>, r: int)
    requires
        0 <= r < 9,
        seq_sum(g[r]) != 45 || !g[r].no_duplicates(),
    ensures
        !valid_solution(g),
{
    assert(!row_valid(g, r));
}

/// Law: a grid with any column that does not sum to 45 or does not hold
/// nine pairwise distinct values is rejected by `is_valid_solution`.
pub proof fn lemma_column_violation_rejected(g: Seq<Seq<u32>>, c: int)
    requires
        0 <= c < 9,
        seq_sum(column_of(g, c)) != 45 || !column_of(g, c).no_duplicates(),
    ensures
        !valid_solution(g),
{
    assert(!column_valid(g, c));
}

/// Law: whenever the given digits of `g` themselves break no constraint,
/// anything the solver may return for `g` keeps the givens of `g` and is
/// accepted by `is_valid_solution`.
pub proof fn lemma_solution_of_consistent_grid_is_valid(g: Seq<Seq<u32>>, s: Seq<Seq<u32>>)
    requires
        rules_hold(g),
        solves(s, g),
    ensures
        keeps_givens(s, g),
        valid_solution(s),
{
    assert forall|r: int| 0 <= r < 9 implies permutation_of_digits(#[trigger] s[r]) by {
        assert forall|i: int, j: int|
            0 <= i < 9 && 0 <= j < 9 && i != j implies s[r][i] != s[r][j] by {
            assert(same_unit(r, i, r, j));
            if g[r][i] != 0 && g[r][j] != 0 {
                assert(s[r][i] == g[r][i] && s[r][j] == g[r][j]);
            }
        }
        assert(s[r].no_duplicates());
    }
    assert forall|c: int| 0 <= c < 9 implies permutation_of_digits(
        #[trigger] column_of(s, c),
    ) by {
        let col = column_of(s, c);
        assert forall|i: int, j: int|
            0 <= i < 9 && 0 <= j < 9 && i != j implies col[i] != col[j] by {
            assert(same_unit(i, c, j, c));
            if g[i][c] != 0 && g[j][c] != 0 {
                assert(s[i][c] == g[i][c] && s[j][c] == g[j][c]);
            }
            assert(col[i] == s[i][c] && col[j] == s[j][c]);
        }
        assert(col.no_duplicates());
        assert(forall|i: int| 0 <= i < 9 ==> 1 <= #[trigger] col[i] <= 9) by {
            assert(forall|i: int| 0 <= i < 9 ==> #[trigger] col[i] == s[i][c]);
        }
    }
    lemma_permutation_filled_grid_is_valid(s);
}

/// The sum of a prefix grows by the next cell.
proof fn lemma_seq_sum_take_step(s: Seq<u32>, i: int)
    requires
        0 <= i < s.len(),
    ensures
        seq_sum(s.take(i + 1)) == seq_sum(s.take(i)) + s[i],
{
    assert(s.take(i + 1).drop_last() =~= s.take(i));
    assert(s.take(i + 1).last() == s[i]);
}

/// Decides whether `board` is a valid completed solution: each of the nine
/// rows and each of the nine columns holds nine distinct values that sum to
/// 45. Box constraints are deliberately not checked.
pub fn is_valid_solution(board: &[[u32; 9]; 9]) -> (valid: bool)
    ensures
        valid == valid_solution(view_of(*board)),
{
    let ghost g = view_of(*board);

    // check if rows are correct
    for r in 0..9usize
        invariant
            g == view_of(*board),
            forall|k: int| 0 <= k < r ==> row_valid(g, k),
    {
        assert(g[r as int] =~= board@[r as int]@);
        for i in 0..9usize
            invariant
                g == view_of(*board),
                r < 9,
                forall|i2: int, j2: int| 0 <= i2 < i && i2 < j2 < 9 ==> g[r as int][i2] != g[r as int][j2],
        {
            for j in (i + 1)..9usize
                invariant
                    g == view_of(*board),
                    r < 9,
                    i < 9,
                    forall|i2: int, j2: int| 0 <= i2 < i && i2 < j2 < 9 ==> g[r as int][i2] != g[r as int][j2],
                    forall|j2: int| i < j2 < j ==> g[r as int][i as int] != g[r as int][j2],
            {
                if board[r][i] == board[r][j] {
                    assert(!g[r as int].no_duplicates());
                    assert(!row_valid(g, r as int));
                    return false;
                }
            }
        }
        assert(g[r as int].no_duplicates());

        let mut total: u64 = 0;
        for c in 0..9usize
            invariant
                g == view_of(*board),
                r < 9,
                total as int == seq_sum(g[r as int].take(c as int)),
                total <= c * 0xffff_ffffu64,
        {
            proof {
                lemma_seq_sum_take_step(g[r as int], c as int);
            }
            total = total + board[r][c] as u64;
        }
        assert(g[r as int].take(9) =~= g[r as int]);
        if total != 45 {
            assert(!row_valid(g, r as int));
            return false;
        }
        assert(row_valid(g, r as int));
    }

    // check if columns are correct
    for c in 0..9usize
        invariant
            g == view_of(*board),
            forall|r: int| 0 <= r < 9 ==> row_valid(g, r),
            forall|k: int| 0 <= k < c ==> column_valid(g, k),
    {
        let ghost col = column_of(g, c as int);
        for i in 0..9usize
            invariant
                g == view_of(*board),
                c < 9,
                col == column_of(g, c as int),
                forall|i2: int, j2: int| 0 <= i2 < i && i2 < j2 < 9 ==> col[i2] != col[j2],
        {
            for j in (i + 1)..9usize
                invariant
                    g == view_of(*board),
                    c < 9,
                    i < 9,
                    col == column_of(g, c as int),
                    forall|i2: int, j2: int| 0 <= i2 < i && i2 < j2 < 9 ==> col[i2] != col[j2],
                    forall|j2: int| i < j2 < j ==> col[i as int] != col[j2],
            {
                if board[i][c] == board[j][c] {
                    assert(col[i as int] == g[i as int][c as int]);
                    assert(col[j as int] == g[j as int][c as int]);
                    assert(!col.no_duplicates());
                    assert(!column_valid(g, c as int));
                    return false;
                }
            }
        }
        assert(col.no_duplicates());

        let mut total: u64 = 0;
        for r in 0..9usize
            invariant
                g == view_of(*board),
                c < 9,
                col == column_of(g, c as int),
                total as int == seq_sum(col.take(r as int)),
                total <= r * 0xffff_ffffu64,
        {
            proof {
                lemma_seq_sum_take_step(col, r as int);
                assert(col[r as int] == g[r as int][c as int]);
            }
            total = total + board[r][c] as u64;
        }
        assert(col.take(9) =~= col);
        if total != 45 {
            assert(!column_valid(g, c as int));
            return false;
        }
        assert(column_valid(g, c as int));
    }

    true
}

} // verus!

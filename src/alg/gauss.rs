//! Gauss-Jordan elimination, as `Matrix::invert_in_place` runs it.
//!
//! The square matrix `a` of size `n` is augmented on the right with the
//! identity. For each column `k` in turn, the first row from `k` down with a
//! nonzero value in column `k` is swapped into row `k`, row `k` is divided by
//! that pivot (columns `k` on), and a multiple of row `k` is subtracted from
//! every other row to clear column `k` (columns `k` on). The right half of
//! the result is the inverse. Divisions round toward zero.
use vstd::prelude::*;

use crate::alg::arith::{is_i64, quot};
use crate::alg::grid::{identity_of, Grid};

verus! {

/// `a` with the identity appended on its right.
pub open spec fn augment(a: Grid<i64>) -> Grid<i64> {
    Grid { n: a.n + a.n, m: a.m, cols: a.cols + identity_of(a.n).cols }
}

/// The first row from `i` down with a nonzero value in column `k`.
pub open spec fn pivot_row(g: Grid<i64>, k: int, i: int) -> Option<int>
    decreases g.m - i,
{
    if i >= g.m || i < 0 {
        None
    } else if g.at(k, i) != 0 {
        Some(i)
    } else {
        pivot_row(g, k, i + 1)
    }
}

/// The pivot found is a nonzero value at or below row `i`.
pub proof fn lemma_pivot_row(g: Grid<i64>, k: int, i: int)
    ensures
        match pivot_row(g, k, i) {
            None => true,
            Some(j) => i <= j < g.m && g.at(k, j) != 0,
        },
    decreases g.m - i,
{
    if 0 <= i < g.m && g.at(k, i) == 0 {
        lemma_pivot_row(g, k, i + 1);
    }
}

/// `g` after the pivot row `j` has been swapped into row `k`.
pub open spec fn swapped(g: Grid<i64>, k: int, j: int) -> Grid<i64> {
    g.swap_rows(j, k)
}

/// `s` after row `k` has been divided by the pivot, from column `k` on.
pub open spec fn divided(s: Grid<i64>, k: int) -> Grid<i64> {
    Grid::from_fn(
        s.n,
        s.m,
        |x: int, y: int|
            if y == k && x >= k {
                quot(s.at(x, k) as int, s.at(k, k) as int) as i64
            } else {
                s.at(x, y)
            },
    )
}

/// `d` after a multiple of row `k` has been subtracted from every other row,
/// from column `k` on, to clear column `k`.
pub open spec fn cleared(d: Grid<i64>, k: int) -> Grid<i64> {
    Grid::from_fn(
        d.n,
        d.m,
        |x: int, y: int|
            if y != k && x >= k {
                (d.at(x, y) - d.at(k, y) * d.at(x, k)) as i64
            } else {
                d.at(x, y)
            },
    )
}

/// The elimination step for column `k` with pivot row `j`.
pub open spec fn step(g: Grid<i64>, k: int, j: int) -> Grid<i64> {
    cleared(divided(swapped(g, k, j), k), k)
}

/// The arithmetic of the step for column `k` with pivot row `j` stays in the
/// `i64` range.
pub open spec fn step_fits(g: Grid<i64>, k: int, j: int) -> bool {
    let s = swapped(g, k, j);
    let d = divided(s, k);
    &&& forall|x: int| k <= x < s.n ==> is_i64(quot(#[trigger] s.at(x, k) as int, s.at(k, k) as int))
    &&& forall|x: int, y: int|
        k <= x < d.n && 0 <= y < d.m && y != k ==> {
            &&& is_i64(#[trigger] d.at(k, y) * #[trigger] d.at(x, k))
            &&& is_i64(d.at(x, y) - d.at(k, y) * d.at(x, k))
        }
}

/// The elimination from column `k` to column `n - 1`: `None` when some column
/// has no pivot.
pub open spec fn run_from(g: Grid<i64>, k: int, n: int) -> Option<Grid<i64>>
    decreases n - k,
{
    if k >= n {
        Some(g)
    } else {
        match pivot_row(g, k, k) {
            None => None,
            Some(j) => run_from(step(g, k, j), k + 1, n),
        }
    }
}

/// The arithmetic of the elimination from column `k` on stays in range.
pub open spec fn run_fits(g: Grid<i64>, k: int, n: int) -> bool
    decreases n - k,
{
    if k >= n {
        true
    } else {
        match pivot_row(g, k, k) {
            None => true,
            Some(j) => step_fits(g, k, j) && run_fits(step(g, k, j), k + 1, n),
        }
    }
}

/// The right half of a matrix of `n + n` columns.
pub open spec fn right_half(g: Grid<i64>, n: nat) -> Grid<i64> {
    Grid { n, m: g.m, cols: g.cols.subrange(n as int, (n + n) as int) }
}

/// The inverse that Gauss-Jordan elimination finds for the square matrix
/// `a`, or `None` when a column has no nonzero pivot.
pub open spec fn inverse_of(a: Grid<i64>) -> Option<Grid<i64>> {
    match run_from(augment(a), 0, a.n as int) {
        None => None,
        Some(g) => Some(right_half(g, a.n)),
    }
}

/// The elimination on `a` stays in the `i64` range.
pub open spec fn inverse_fits(a: Grid<i64>) -> bool {
    run_fits(augment(a), 0, a.n as int)
}

} // verus!

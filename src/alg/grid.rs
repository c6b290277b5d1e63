//! The mathematical model of a matrix, the algebra on it, and its laws.
use vstd::prelude::*;

use crate::alg::arith::{dot_fits, dot_of, lemma_dot_upto_commutes, quot};

verus! {

/// The mathematical model of a matrix: `n` columns of `m` values each.
/// `cols[x][y]` is the value in column `x` and row `y`.
#[verifier::ext_equal]
pub struct Grid<T> {
    pub n: nat,
    pub m: nat,
    pub cols: Seq<Seq<T>>,
}

impl<T> Grid<T> {
    /// Every column holds exactly `m` values.
    pub open spec fn wf(self) -> bool {
        &&& self.cols.len() == self.n
        &&& forall|x: int| 0 <= x < self.n ==> (#[trigger] self.cols[x]).len() == self.m
    }

    /// The value in column `x` and row `y`.
    pub open spec fn at(self, x: int, y: int) -> T {
        self.cols[x][y]
    }

    /// Row `y`, read from left to right.
    pub open spec fn row(self, y: int) -> Seq<T> {
        Seq::new(self.n, |x: int| self.at(x, y))
    }

    /// The `n` by `m` matrix whose value at `(x, y)` is `f(x, y)`.
    pub open spec fn from_fn(n: nat, m: nat, f: spec_fn(int, int) -> T) -> Grid<T> {
        Grid { n, m, cols: Seq::new(n, |x: int| Seq::new(m, |y: int| f(x, y))) }
    }

    /// The matrix with the value at `(x, y)` replaced by `v`.
    pub open spec fn set(self, x: int, y: int, v: T) -> Grid<T> {
        Grid { cols: self.cols.update(x, self.cols[x].update(y, v)), ..self }
    }

    /// The transposed matrix: rows become columns.
    pub open spec fn transpose(self) -> Grid<T> {
        Grid::from_fn(self.m, self.n, |x: int, y: int| self.at(y, x))
    }

    /// The matrix with rows `ya` and `yb` exchanged.
    pub open spec fn swap_rows(self, ya: int, yb: int) -> Grid<T> {
        Grid::from_fn(
            self.n,
            self.m,
            |x: int, y: int|
                if y == ya {
                    self.at(x, yb)
                } else if y == yb {
                    self.at(x, ya)
                } else {
                    self.at(x, y)
                },
        )
    }

    /// The matrix with columns `xa` and `xb` exchanged.
    pub open spec fn swap_cols(self, xa: int, xb: int) -> Grid<T> {
        Grid::from_fn(
            self.n,
            self.m,
            |x: int, y: int|
                if x == xa {
                    self.at(xb, y)
                } else if x == xb {
                    self.at(xa, y)
                } else {
                    self.at(x, y)
                },
        )
    }

    /// The matrix with the first `c.len()` values of column `x` replaced by `c`.
    pub open spec fn with_col(self, x: int, c: Seq<T>) -> Grid<T> {
        Grid::from_fn(
            self.n,
            self.m,
            |x2: int, y: int|
                if x2 == x && y < c.len() {
                    c[y]
                } else {
                    self.at(x2, y)
                },
        )
    }

    /// The matrix with the first `r.len()` values of row `y` replaced by `r`.
    pub open spec fn with_row(self, y: int, r: Seq<T>) -> Grid<T> {
        Grid::from_fn(
            self.n,
            self.m,
            |x: int, y2: int|
                if y2 == y && x < r.len() {
                    r[x]
                } else {
                    self.at(x, y2)
                },
        )
    }

    /// The values in storage order: column after column.
    pub open spec fn entries(self) -> Seq<T> {
        Seq::new(self.n * self.m, |i: int| self.at(i / self.m as int, i % self.m as int))
    }
}

/// The `n` by `n` identity matrix.
pub open spec fn identity_of(n: nat) -> Grid<i64> {
    Grid::from_fn(n, n, |x: int, y: int| if x == y { 1i64 } else { 0i64 })
}

/// The product `a * b`: the value at `(x, y)` is the dot product of row `y`
/// of `a` with column `x` of `b`.
pub open spec fn mat_mul(a: Grid<i64>, b: Grid<i64>) -> Grid<i64> {
    Grid::from_fn(b.n, a.m, |x: int, y: int| dot_of(a.row(y), b.cols[x]) as i64)
}

/// Every dot product of `a * b` is computed without leaving the `i64` range.
pub open spec fn mul_fits(a: Grid<i64>, b: Grid<i64>) -> bool {
    forall|x: int, y: int| 0 <= x < b.n && 0 <= y < a.m ==> dot_fits(#[trigger] a.row(y), #[trigger] b.cols[x])
}

/// The product of `a` with the column vector `v`.
pub open spec fn mat_mul_vec(a: Grid<i64>, v: Seq<i64>) -> Seq<i64> {
    Seq::new(a.m, |y: int| dot_of(a.row(y), v) as i64)
}

/// The entrywise sum of two matrices of one shape.
pub open spec fn mat_add(a: Grid<i64>, b: Grid<i64>) -> Grid<i64> {
    Grid::from_fn(a.n, a.m, |x: int, y: int| (a.at(x, y) + b.at(x, y)) as i64)
}

/// The entrywise difference of two matrices of one shape.
pub open spec fn mat_sub(a: Grid<i64>, b: Grid<i64>) -> Grid<i64> {
    Grid::from_fn(a.n, a.m, |x: int, y: int| (a.at(x, y) - b.at(x, y)) as i64)
}

/// Every value of `a` multiplied by `k`.
pub open spec fn mat_scale(a: Grid<i64>, k: i64) -> Grid<i64> {
    Grid::from_fn(a.n, a.m, |x: int, y: int| (a.at(x, y) * k) as i64)
}

/// Every value of `a` divided by `k`, rounding toward zero.
pub open spec fn mat_quot(a: Grid<i64>, k: i64) -> Grid<i64> {
    Grid::from_fn(a.n, a.m, |x: int, y: int| quot(a.at(x, y) as int, k as int) as i64)
}

/// Transposing twice gives back the matrix.
pub proof fn lemma_transpose_transpose<T>(a: Grid<T>)
    requires
        a.wf(),
    ensures
        a.transpose().transpose() == a,
{
    lemma_grid_ext(a.transpose().transpose(), a);
}

/// The transpose of a product is the product of the transposes, in the
/// other order: `(a * b)^T == b^T * a^T`.
pub proof fn lemma_transpose_of_product(a: Grid<i64>, b: Grid<i64>)
    requires
        a.wf(),
        b.wf(),
        a.n == b.m,
    ensures
        mat_mul(a, b).transpose() == mat_mul(b.transpose(), a.transpose()),
{
    let bt = b.transpose();
    let at = a.transpose();
    assert forall|x: int, y: int| 0 <= x < a.m && 0 <= y < b.n implies #[trigger] mat_mul(
        a,
        b,
    ).transpose().at(x, y) == mat_mul(bt, at).at(x, y) by {
        assert(bt.row(y) =~= b.cols[y]);
        assert(at.cols[x] =~= a.row(x));
        lemma_dot_upto_commutes(a.row(x), b.cols[y], a.n as int);
    }
    lemma_grid_ext(mat_mul(a, b).transpose(), mat_mul(bt, at));
}

/// Appending the columns of `b` to `a` and then keeping the columns from
/// `a.n` on gives back `b`.
pub proof fn lemma_append_then_keep<T>(a: Grid<T>, b: Grid<T>)
    requires
        a.wf(),
        b.wf(),
        a.m == b.m,
    ensures
        ({
            let c = Grid::<T> { n: a.n + b.n, m: a.m, cols: a.cols + b.cols };
            Grid::<T> {
                n: (a.n + b.n - a.n) as nat,
                m: c.m,
                cols: c.cols.subrange(a.n as int, (a.n + b.n) as int),
            }
        }) == b,
{
    let c = Grid::<T> { n: a.n + b.n, m: a.m, cols: a.cols + b.cols };
    assert(c.cols.subrange(a.n as int, (a.n + b.n) as int) =~= b.cols);
}

/// Multiplying a matrix by a vector agrees with multiplying it by the
/// single-column matrix that holds the vector.
pub proof fn lemma_mul_vec_as_column(a: Grid<i64>, v: Seq<i64>)
    requires
        a.wf(),
        a.n == v.len(),
    ensures
        Grid::from_fn(1, a.m, |x: int, y: int| mat_mul_vec(a, v)[y]) == mat_mul(
            a,
            Grid::from_fn(1, v.len(), |x: int, y: int| v[y]),
        ),
{
    let col = Grid::from_fn(1, v.len(), |x: int, y: int| v[y]);
    assert(col.cols[0] =~= v);
    lemma_grid_ext(Grid::from_fn(1, a.m, |x: int, y: int| mat_mul_vec(a, v)[y]), mat_mul(a, col));
}

/// Two well-formed matrices with the same shape and the same values are equal.
pub proof fn lemma_grid_ext<T>(a: Grid<T>, b: Grid<T>)
    requires
        a.wf(),
        b.wf(),
        a.n == b.n,
        a.m == b.m,
        forall|x: int, y: int| 0 <= x < a.n && 0 <= y < a.m ==> a.at(x, y) == b.at(x, y),
    ensures
        a == b,
{
    assert forall|x: int| 0 <= x < a.n implies a.cols[x] =~= b.cols[x] by {
        assert forall|y: int| 0 <= y < a.m implies a.cols[x][y] == b.cols[x][y] by {
            assert(a.at(x, y) == b.at(x, y));
        }
    }
    assert(a.cols =~= b.cols);
    assert(a =~= b);
}

/// Where column `x`, row `y` of a matrix of height `m` sits in column-major
/// storage.
pub open spec fn pos(m: int, x: int, y: int) -> int {
    x * m + y
}

/// Writing one cell keeps the shape and changes only that cell.
pub proof fn lemma_set<T>(g: Grid<T>, x: int, y: int, v: T)
    requires
        g.wf(),
        0 <= x < g.n,
        0 <= y < g.m,
    ensures
        g.set(x, y, v).wf(),
        g.set(x, y, v).n == g.n,
        g.set(x, y, v).m == g.m,
        forall|x2: int, y2: int|
            0 <= x2 < g.n && 0 <= y2 < g.m ==> #[trigger] g.set(x, y, v).at(x2, y2) == if x2 == x
                && y2 == y {
                v
            } else {
                g.at(x2, y2)
            },
{
    let s = g.set(x, y, v);
    assert forall|x2: int| 0 <= x2 < s.n implies (#[trigger] s.cols[x2]).len() == s.m by {
        assert(g.cols[x2].len() == g.m);
    }
    assert forall|x2: int, y2: int| 0 <= x2 < g.n && 0 <= y2 < g.m implies #[trigger] s.at(x2, y2)
        == if x2 == x && y2 == y {
        v
    } else {
        g.at(x2, y2)
    } by {
        assert(g.cols[x2].len() == g.m);
    }
}

/// Column `x`, row `y` sits at `y + x * m` in column-major storage.
pub proof fn lemma_flat_index(n: int, m: int, x: int, y: int)
    requires
        0 <= x < n,
        0 <= y < m,
    ensures
        0 <= x * m,
        x * m + m <= n * m,
        0 <= x * m + y < n * m,
{
    assert(0 <= x * m) by (nonlinear_arith)
        requires
            0 <= x,
            0 <= m,
    ;
    assert(x * m + m <= n * m) by (nonlinear_arith)
        requires
            x + 1 <= n,
            0 <= m,
    ;
}

/// Column `x` of a matrix of height `m` occupies `x * m .. x * m + m`.
pub proof fn lemma_col_range(n: int, m: int, x: int)
    requires
        0 <= x < n,
        0 <= m,
    ensures
        0 <= x * m,
        x * m + m <= n * m,
{
    assert(0 <= x * m) by (nonlinear_arith)
        requires
            0 <= x,
            0 <= m,
    ;
    assert(x * m + m <= n * m) by (nonlinear_arith)
        requires
            x + 1 <= n,
            0 <= m,
    ;
}

/// Distinct cells have distinct storage positions, in column-major order.
pub proof fn lemma_flat_order(m: int, x1: int, y1: int, x2: int, y2: int)
    requires
        0 <= y1 < m,
        0 <= y2 < m,
        x1 < x2,
    ensures
        x1 * m + y1 < x2 * m + y2,
{
    assert(x1 * m + m <= x2 * m) by (nonlinear_arith)
        requires
            x1 + 1 <= x2,
            0 <= m,
    ;
}

/// Distinct cells have distinct storage positions.
pub proof fn lemma_flat_order_ne(m: int, x1: int, y1: int, x2: int, y2: int)
    requires
        0 <= y1 < m,
        0 <= y2 < m,
        x1 != x2 || y1 != y2,
    ensures
        pos(m, x1, y1) != pos(m, x2, y2),
{
    if x1 < x2 {
        lemma_flat_order(m, x1, y1, x2, y2);
    } else if x2 < x1 {
        lemma_flat_order(m, x2, y2, x1, y1);
    }
}

} // verus!

//! Dense matrices, stored column by column.
use vstd::arithmetic::div_mod::lemma_fundamental_div_mod;
use vstd::prelude::*;

use crate::alg::arith::{dot_fits, dot_of, dot_upto, is_i64, quot, quot_i64};
use crate::alg::gauss::{
    augment, cleared, divided, inverse_fits, inverse_of, lemma_pivot_row, pivot_row, right_half,
    run_fits, run_from, swapped,
};
use crate::alg::grid::{
    identity_of, lemma_col_range, lemma_flat_index, lemma_flat_order, lemma_flat_order_ne,
    lemma_grid_ext, lemma_set, mat_add, mat_mul, mat_mul_vec, mat_quot, mat_scale, mat_sub,
    mul_fits, pos, Grid,
};
use crate::alg::permanent::{
    det_fits, det_of, expand_fits, expand_from, expand_upto, expand_upto_fits,
    lemma_upto_fits_prefix, marked,
};
use crate::alg::vector::Vector;

verus! {

/// A matrix of `n` columns and `m` rows, its values stored column after
/// column: the value at column `x`, row `y` sits at `y + x * m`.
#[derive(PartialEq, Debug)]
pub struct Matrix<T> {
    /// Number of rows (the height).
    pub m: usize,
    /// Number of columns (the width).
    pub n: usize,
    data: Vec<T>,
}

impl<T> View for Matrix<T> {
    type V = Grid<T>;

    closed spec fn view(&self) -> Grid<T> {
        Grid {
            n: self.n as nat,
            m: self.m as nat,
            cols: Seq::new(
                self.n as nat,
                |x: int| self.data@.subrange(x * self.m, x * self.m + self.m),
            ),
        }
    }
}

impl<T> Matrix<T> {
    /// The storage holds exactly `n * m` values.
    pub closed spec fn wf(&self) -> bool {
        &&& self.data@.len() == self.n * self.m
        &&& self.n * self.m <= usize::MAX
    }

    /// The storage, read through the model.
    proof fn lemma_view(&self)
        requires
            self.wf(),
        ensures
            self@.wf(),
            self@.n == self.n,
            self@.m == self.m,
            forall|x: int, y: int|
                0 <= x < self.n && 0 <= y < self.m ==> #[trigger] self@.at(x, y) == self.data@[pos(
                    self.m as int,
                    x,
                    y,
                )] && 0 <= pos(self.m as int, x, y) < self.data@.len(),
    {
        assert forall|x: int| 0 <= x < self.n implies (#[trigger] self@.cols[x]).len()
            == self.m by {
            lemma_col_range(self.n as int, self.m as int, x);
        }
        assert forall|x: int, y: int| 0 <= x < self.n && 0 <= y < self.m implies #[trigger] self@.at(
            x,
            y,
        ) == self.data@[pos(self.m as int, x, y)] && 0 <= pos(self.m as int, x, y)
            < self.data@.len() by {
            lemma_flat_index(self.n as int, self.m as int, x, y);
        }
    }

    /// The storage holds the values in column-major order.
    proof fn lemma_entries(&self)
        requires
            self.wf(),
        ensures
            self.data@ == self@.entries(),
    {
        self.lemma_view();
        let m = self.m as int;
        let n = self.n as int;
        assert forall|i: int| 0 <= i < self.data@.len() implies self.data@[i] == self@.entries()[i] by {
            assert(m > 0) by (nonlinear_arith)
                requires
                    0 <= i < n * m,
                    n >= 0,
                    m >= 0,
            ;
            lemma_fundamental_div_mod(i, m);
            let q = i / m;
            let r = i % m;
            assert(0 <= r < m);
            assert(0 <= q < n) by (nonlinear_arith)
                requires
                    i == m * q + r,
                    0 <= r < m,
                    0 <= i < n * m,
            ;
            assert(pos(m, q, r) == i) by (nonlinear_arith)
                requires
                    i == m * q + r,
            ;
        }
        assert(self.data@ =~= self@.entries());
    }

    /// The position of column `x`, row `y` in the storage.
    fn get_index(&self, x: usize, y: usize) -> (r: usize)
        requires
            self.wf(),
            x < self.n,
            y < self.m,
        ensures
            r == x * self.m + y,
            r < self.data@.len(),
            self@.at(x as int, y as int) == self.data@[r as int],
    {
        proof {
            self.lemma_view();
            lemma_flat_index(self.n as int, self.m as int, x as int, y as int);
        }
        y + x * self.m
    }

    /// Creates an `n` by `m` matrix whose value at column `x`, row `y` is
    /// `f(x, y)`; `f` is called once for each cell.
    pub fn new<F: Fn(usize, usize) -> T>(n: usize, m: usize, f: F) -> (r: Self)
        requires
            n * m <= usize::MAX,
            forall|x: usize, y: usize| x < n && y < m ==> f.requires((x, y)),
        ensures
            r.wf(),
            r@.wf(),
            r@.n == n,
            r@.m == m,
            forall|x: int, y: int|
                0 <= x < n && 0 <= y < m ==> f.ensures((x as usize, y as usize), #[trigger] r@.at(x, y)),
    {
        let mut data: Vec<T> = Vec::new();
        let mut x: usize = 0;
        while x < n
            invariant
                n * m <= usize::MAX,
                forall|x: usize, y: usize| x < n && y < m ==> f.requires((x, y)),
                x <= n,
                data@.len() == x * m,
                forall|x2: int, y2: int|
                    0 <= x2 < x && 0 <= y2 < m ==> f.ensures(
                        (x2 as usize, y2 as usize),
                        #[trigger] data@[pos(m as int, x2, y2)],
                    ),
            decreases n - x,
        {
            let mut y: usize = 0;
            proof {
                lemma_col_range(n as int, m as int, x as int);
            }
            while y < m
                invariant
                    n * m <= usize::MAX,
                    forall|x: usize, y: usize| x < n && y < m ==> f.requires((x, y)),
                    x < n,
                    y <= m,
                    x * m + m <= n * m,
                    data@.len() == x * m + y,
                    forall|x2: int, y2: int|
                        0 <= x2 < x && 0 <= y2 < m ==> f.ensures(
                            (x2 as usize, y2 as usize),
                            #[trigger] data@[pos(m as int, x2, y2)],
                        ),
                    forall|y2: int|
                        0 <= y2 < y ==> f.ensures(
                            (x as usize, y2 as usize),
                            #[trigger] data@[pos(m as int, x as int, y2)],
                        ),
                decreases m - y,
            {
                let v = f(x, y);
                proof {
                    assert forall|x2: int, y2: int| 0 <= x2 < x && 0 <= y2 < m implies #[trigger] pos(
                        m as int,
                        x2,
                        y2,
                    ) < data@.len() by {
                        lemma_flat_order(m as int, x2, y2, x as int, 0);
                    }
                }
                data.push(v);
                y = y + 1;
            }
            proof {
                assert forall|x2: int, y2: int| 0 <= x2 < x + 1 && 0 <= y2 < m implies f.ensures(
                    (x2 as usize, y2 as usize),
                    #[trigger] data@[pos(m as int, x2, y2)],
                ) by {
                    if x2 == x {
                        assert(pos(m as int, x as int, y2) == pos(m as int, x2, y2));
                    }
                }
                assert((x + 1) * m == x * m + m) by (nonlinear_arith);
            }
            x = x + 1;
        }
        let r = Matrix { m, n, data };
        proof {
            r.lemma_view();
        }
        r
    }

    /// Keeps only the columns in `cols`, in place; the others are dropped.
    pub fn keep_cols(&mut self, cols: core::ops::Range<usize>)
        requires
            old(self).wf(),
            cols.start <= cols.end <= old(self)@.n,
        ensures
            final(self).wf(),
            final(self)@ == (Grid::<T> {
                n: (cols.end - cols.start) as nat,
                m: old(self)@.m,
                cols: old(self)@.cols.subrange(cols.start as int, cols.end as int),
            }),
    {
        let ghost g0 = self@;
        proof {
            self.lemma_view();
            assert(cols.end * self.m <= self.n * self.m) by (nonlinear_arith)
                requires
                    cols.end <= self.n,
            ;
            assert(cols.start * self.m <= cols.end * self.m) by (nonlinear_arith)
                requires
                    cols.start <= cols.end,
            ;
        }
        let n_cols = cols.end - cols.start;
        let start = cols.start * self.m;
        let end = cols.end * self.m;
        self.data.truncate(end);
        if start > 0 {
            self.data = self.data.split_off(start);
        }
        self.n = n_cols;
        proof {
            let m = self.m as int;
            let s0 = cols.start as int;
            assert(end - start == n_cols * m) by (nonlinear_arith)
                requires
                    end == cols.end * m,
                    start == s0 * m,
                    n_cols == cols.end - s0,
            ;
            self.lemma_view();
            let g = Grid::<T> {
                n: n_cols as nat,
                m: g0.m,
                cols: g0.cols.subrange(s0, cols.end as int),
            };
            assert forall|x: int| 0 <= x < g.n implies (#[trigger] g.cols[x]).len() == g.m by {
                assert(g.cols[x] == g0.cols[x + s0]);
            }
            assert forall|x: int, y: int| 0 <= x < g.n && 0 <= y < g.m implies self@.at(x, y)
                == g.at(x, y) by {
                assert(pos(m, x, y) + start == pos(m, x + s0, y)) by (nonlinear_arith)
                    requires
                        start == s0 * m,
                ;
                lemma_flat_index(cols.end as int, m, x + s0, y);
                assert(g.at(x, y) == g0.at(x + s0, y));
            }
            lemma_grid_ext(self@, g);
        }
    }

    /// Appends the columns of `other` to the right of this matrix.
    pub fn append_cols(&mut self, other: Matrix<T>)
        requires
            old(self).wf(),
            other.wf(),
            old(self)@.m == other@.m,
            old(self)@.n + other@.n <= usize::MAX,
            (old(self)@.n + other@.n) * old(self)@.m <= usize::MAX,
        ensures
            final(self).wf(),
            final(self)@ == (Grid::<T> {
                n: old(self)@.n + other@.n,
                m: old(self)@.m,
                cols: old(self)@.cols + other@.cols,
            }),
    {
        let ghost g0 = self@;
        let ghost g1 = other@;
        proof {
            self.lemma_view();
            other.lemma_view();
        }
        let mut other = other;
        self.n = self.n + other.n;
        self.data.append(&mut other.data);
        proof {
            let m = self.m as int;
            let n0 = g0.n as int;
            assert(self.n * m == n0 * m + g1.n * m) by (nonlinear_arith)
                requires
                    self.n == n0 + g1.n,
            ;
            self.lemma_view();
            let g = Grid::<T> { n: g0.n + g1.n, m: g0.m, cols: g0.cols + g1.cols };
            assert forall|x: int| 0 <= x < g.n implies (#[trigger] g.cols[x]).len() == g.m by {
                if x >= n0 {
                    assert(g.cols[x] == g1.cols[x - n0]);
                }
            }
            assert forall|x: int, y: int| 0 <= x < g.n && 0 <= y < g.m implies self@.at(x, y)
                == g.at(x, y) by {
                if x < n0 {
                    lemma_flat_index(n0, m, x, y);
                } else {
                    assert(pos(m, x, y) == n0 * m + pos(m, x - n0, y)) by (nonlinear_arith);
                    lemma_flat_index(g1.n as int, m, x - n0, y);
                    assert(g.at(x, y) == g1.at(x - n0, y));
                }
            }
            lemma_grid_ext(self@, g);
        }
    }

    /// The empty matrix, with no rows and no columns.
    pub fn dummy() -> (r: Self)
        ensures
            r.wf(),
            r@ == (Grid::<T> { n: 0, m: 0, cols: Seq::empty() }),
    {
        let r = Matrix { m: 0, n: 0, data: Vec::new() };
        assert(r@.cols =~= Seq::<Seq<T>>::empty());
        r
    }

    /// The number of columns.
    pub fn width(&self) -> (r: usize)
        ensures
            r == self@.n,
    {
        self.n
    }

    /// The number of rows.
    pub fn height(&self) -> (r: usize)
        ensures
            r == self@.m,
    {
        self.m
    }

    /// Whether the matrix has as many rows as columns.
    pub fn is_squared(&self) -> (r: bool)
        ensures
            r == (self@.n == self@.m),
    {
        self.m == self.n
    }
}

impl<T: Copy> Matrix<T> {
    /// The value at column `x`, row `y`.
    pub fn get(&self, x: usize, y: usize) -> (r: T)
        requires
            self.wf(),
            x < self@.n,
            y < self@.m,
        ensures
            r == self@.at(x as int, y as int),
    {
        let i = self.get_index(x, y);
        self.data[i]
    }

    /// Writes `v` at column `x`, row `y`.
    pub fn set(&mut self, x: usize, y: usize, v: T)
        requires
            old(self).wf(),
            x < old(self)@.n,
            y < old(self)@.m,
        ensures
            final(self).wf(),
            final(self)@ == old(self)@.set(x as int, y as int, v),
    {
        let i = self.get_index(x, y);
        proof {
            self.lemma_view();
        }
        self.data[i] = v;
        proof {
            let g = old(self)@.set(x as int, y as int, v);
            self.lemma_view();
            old(self).lemma_view();
            lemma_set(old(self)@, x as int, y as int, v);
            assert forall|x2: int, y2: int| 0 <= x2 < self.n && 0 <= y2 < self.m implies self@.at(
                x2,
                y2,
            ) == g.at(x2, y2) by {
                if x2 != x {
                    lemma_flat_order_ne(self.m as int, x2, y2, x as int, y as int);
                } else if y2 != y {
                }
            }
            lemma_grid_ext(self@, g);
        }
    }

    /// Exchanges the values at two cells.
    pub fn swap(&mut self, a: (usize, usize), b: (usize, usize))
        requires
            old(self).wf(),
            a.0 < old(self)@.n,
            a.1 < old(self)@.m,
            b.0 < old(self)@.n,
            b.1 < old(self)@.m,
        ensures
            final(self).wf(),
            final(self)@ == old(self)@.set(
                a.0 as int,
                a.1 as int,
                old(self)@.at(b.0 as int, b.1 as int),
            ).set(b.0 as int, b.1 as int, old(self)@.at(a.0 as int, a.1 as int)),
    {
        let va = self.get(a.0, a.1);
        let vb = self.get(b.0, b.1);
        self.set(a.0, a.1, vb);
        self.set(b.0, b.1, va);
    }

    /// Exchanges rows `ya` and `yb`.
    pub fn swap_rows(&mut self, ya: usize, yb: usize)
        requires
            old(self).wf(),
            ya < old(self)@.m,
            yb < old(self)@.m,
        ensures
            final(self).wf(),
            final(self)@ == old(self)@.swap_rows(ya as int, yb as int),
    {
        proof {
            self.lemma_view();
        }
        if ya == yb {
            proof {
                lemma_grid_ext(self@, self@.swap_rows(ya as int, yb as int));
            }
            return;
        }
        let ghost g0 = self@;
        let n = self.n;
        let mut x: usize = 0;
        while x < n
            invariant
                self.wf(),
                g0.wf(),
                self@.wf(),
                n == self@.n,
                n == g0.n,
                self@.m == g0.m,
                ya < g0.m,
                yb < g0.m,
                ya != yb,
                x <= n,
                forall|x2: int, y: int|
                    0 <= x2 < n && 0 <= y < g0.m ==> #[trigger] self@.at(x2, y) == if x2 < x {
                        g0.swap_rows(ya as int, yb as int).at(x2, y)
                    } else {
                        g0.at(x2, y)
                    },
            decreases n - x,
        {
            let ghost prev = self@;
            self.swap((x, ya), (x, yb));
            proof {
                lemma_set(prev, x as int, ya as int, prev.at(x as int, yb as int));
                lemma_set(
                    prev.set(x as int, ya as int, prev.at(x as int, yb as int)),
                    x as int,
                    yb as int,
                    prev.at(x as int, ya as int),
                );
            }
            x = x + 1;
        }
        proof {
            lemma_grid_ext(self@, g0.swap_rows(ya as int, yb as int));
        }
    }

    /// Exchanges columns `xa` and `xb`.
    pub fn swap_cols(&mut self, xa: usize, xb: usize)
        requires
            old(self).wf(),
            xa < old(self)@.n,
            xb < old(self)@.n,
        ensures
            final(self).wf(),
            final(self)@ == old(self)@.swap_cols(xa as int, xb as int),
    {
        proof {
            self.lemma_view();
        }
        if xa == xb {
            proof {
                lemma_grid_ext(self@, self@.swap_cols(xa as int, xb as int));
            }
            return;
        }
        let ghost g0 = self@;
        let m = self.m;
        let mut y: usize = 0;
        while y < m
            invariant
                self.wf(),
                g0.wf(),
                self@.wf(),
                m == self@.m,
                m == g0.m,
                self@.n == g0.n,
                xa < g0.n,
                xb < g0.n,
                xa != xb,
                y <= m,
                forall|x: int, y2: int|
                    0 <= x < g0.n && 0 <= y2 < m ==> #[trigger] self@.at(x, y2) == if y2 < y {
                        g0.swap_cols(xa as int, xb as int).at(x, y2)
                    } else {
                        g0.at(x, y2)
                    },
            decreases m - y,
        {
            let ghost prev = self@;
            self.swap((xa, y), (xb, y));
            proof {
                lemma_set(prev, xa as int, y as int, prev.at(xb as int, y as int));
                lemma_set(
                    prev.set(xa as int, y as int, prev.at(xb as int, y as int)),
                    xb as int,
                    y as int,
                    prev.at(xa as int, y as int),
                );
            }
            y = y + 1;
        }
        proof {
            lemma_grid_ext(self@, g0.swap_cols(xa as int, xb as int));
        }
    }

    /// Row `y`, as a vector of dimension `n`.
    pub fn row(&self, y: usize) -> (r: Vector<T>)
        requires
            self.wf(),
            y < self@.m,
        ensures
            r@ == self@.row(y as int),
    {
        let r = Vector::new(
            self.n,
            (|x: usize| -> (v: T)
                requires
                    self.wf(),
                    x < self@.n,
                    y < self@.m,
                ensures
                    v == self@.at(x as int, y as int),
                {
                    self.get(x, y)
                }),
        );
        assert(r@ =~= self@.row(y as int));
        r
    }

    /// Column `x`, as a vector of dimension `m`.
    pub fn col(&self, x: usize) -> (r: Vector<T>)
        requires
            self.wf(),
            x < self@.n,
        ensures
            r@ == self@.cols[x as int],
    {
        proof {
            self.lemma_view();
        }
        let r = Vector::new(
            self.m,
            (|y: usize| -> (v: T)
                requires
                    self.wf(),
                    x < self@.n,
                    y < self@.m,
                ensures
                    v == self@.at(x as int, y as int),
                {
                    self.get(x, y)
                }),
        );
        assert(r@ =~= self@.cols[x as int]);
        r
    }

    /// Writes the values of `col` at the top of column `x`.
    pub fn set_col(&mut self, x: usize, col: Vector<T>)
        requires
            old(self).wf(),
            x < old(self)@.n,
            col@.len() <= old(self)@.m,
        ensures
            final(self).wf(),
            final(self)@ == old(self)@.with_col(x as int, col@),
    {
        let ghost g0 = self@;
        proof {
            self.lemma_view();
        }
        let len = col.dim();
        let mut i: usize = 0;
        while i < len
            invariant
                self.wf(),
                self@.wf(),
                g0.wf(),
                self@.n == g0.n,
                self@.m == g0.m,
                x < g0.n,
                len == col@.len(),
                len <= g0.m,
                i <= len,
                forall|x2: int, y: int|
                    0 <= x2 < g0.n && 0 <= y < g0.m ==> #[trigger] self@.at(x2, y) == if x2 == x
                        && y < i {
                        col@[y]
                    } else {
                        g0.at(x2, y)
                    },
            decreases len - i,
        {
            let v = col.get(i);
            proof {
                lemma_set(self@, x as int, i as int, v);
            }
            self.set(x, i, v);
            i = i + 1;
        }
        proof {
            lemma_grid_ext(self@, g0.with_col(x as int, col@));
        }
    }

    /// Writes the values of `row` at the left of row `y`.
    pub fn set_row(&mut self, y: usize, row: Vector<T>)
        requires
            old(self).wf(),
            y < old(self)@.m,
            row@.len() <= old(self)@.n,
        ensures
            final(self).wf(),
            final(self)@ == old(self)@.with_row(y as int, row@),
    {
        let ghost g0 = self@;
        proof {
            self.lemma_view();
        }
        let len = row.dim();
        let mut i: usize = 0;
        while i < len
            invariant
                self.wf(),
                self@.wf(),
                g0.wf(),
                self@.n == g0.n,
                self@.m == g0.m,
                y < g0.m,
                len == row@.len(),
                len <= g0.n,
                i <= len,
                forall|x: int, y2: int|
                    0 <= x < g0.n && 0 <= y2 < g0.m ==> #[trigger] self@.at(x, y2) == if y2 == y
                        && x < i {
                        row@[x]
                    } else {
                        g0.at(x, y2)
                    },
            decreases len - i,
        {
            let v = row.get(i);
            proof {
                lemma_set(self@, i as int, y as int, v);
            }
            self.set(i, y, v);
            i = i + 1;
        }
        proof {
            lemma_grid_ext(self@, g0.with_row(y as int, row@));
        }
    }

    /// The single-column matrix holding `v`.
    pub fn from_col(v: &Vector<T>) -> (r: Self)
        ensures
            r.wf(),
            r@ == Grid::from_fn(1, v@.len(), |x: int, y: int| v@[y]),
    {
        let r = Matrix::new(
            1,
            v.dim(),
            (|x: usize, y: usize| -> (e: T)
                requires
                    y < v@.len(),
                ensures
                    e == v@[y as int],
                {
                    v.get(y)
                }),
        );
        proof {
            lemma_grid_ext(r@, Grid::from_fn(1, v@.len(), |x: int, y: int| v@[y]));
        }
        r
    }

    /// The single-row matrix holding `v`.
    pub fn from_row(v: &Vector<T>) -> (r: Self)
        ensures
            r.wf(),
            r@ == Grid::from_fn(v@.len(), 1, |x: int, y: int| v@[x]),
    {
        let r = Matrix::new(
            v.dim(),
            1,
            (|x: usize, y: usize| -> (e: T)
                requires
                    x < v@.len(),
                ensures
                    e == v@[x as int],
                {
                    v.get(x)
                }),
        );
        proof {
            lemma_grid_ext(r@, Grid::from_fn(v@.len(), 1, |x: int, y: int| v@[x]));
        }
        r
    }

    /// The matrix whose columns are the given vectors, all of one dimension;
    /// the empty matrix when there are none.
    pub fn from_cols(cols: &[Vector<T>]) -> (r: Self)
        requires
            forall|i: int| 0 <= i < cols@.len() ==> (#[trigger] cols@[i])@.len() == cols@[0]@.len(),
            cols@.len() > 0 ==> cols@.len() * cols@[0]@.len() <= usize::MAX,
        ensures
            r.wf(),
            r@ == if cols@.len() == 0 {
                Grid { n: 0, m: 0, cols: Seq::empty() }
            } else {
                Grid::from_fn(cols@.len(), cols@[0]@.len(), |x: int, y: int| cols@[x]@[y])
            },
    {
        if cols.len() == 0 {
            Matrix::dummy()
        } else {
            let n = cols.len();
            let m = cols[0].dim();
            let r = Matrix::new(
                n,
                m,
                (|x: usize, y: usize| -> (e: T)
                    requires
                        x < cols@.len(),
                        y < cols@[x as int]@.len(),
                    ensures
                        e == cols@[x as int]@[y as int],
                    {
                        cols[x].get(y)
                    }),
            );
            proof {
                lemma_grid_ext(r@, Grid::from_fn(n as nat, m as nat, |x: int, y: int| cols@[x]@[y]));
            }
            r
        }
    }

    /// The matrix whose rows are the given vectors, all of one dimension;
    /// the empty matrix when there are none.
    pub fn from_rows(rows: &[Vector<T>]) -> (r: Self)
        requires
            forall|i: int| 0 <= i < rows@.len() ==> (#[trigger] rows@[i])@.len() == rows@[0]@.len(),
            rows@.len() > 0 ==> rows@[0]@.len() * rows@.len() <= usize::MAX,
        ensures
            r.wf(),
            r@ == if rows@.len() == 0 {
                Grid { n: 0, m: 0, cols: Seq::empty() }
            } else {
                Grid::from_fn(rows@[0]@.len(), rows@.len(), |x: int, y: int| rows@[y]@[x])
            },
    {
        if rows.len() == 0 {
            Matrix::dummy()
        } else {
            let m = rows.len();
            let n = rows[0].dim();
            let r = Matrix::new(
                n,
                m,
                (|x: usize, y: usize| -> (e: T)
                    requires
                        y < rows@.len(),
                        x < rows@[y as int]@.len(),
                    ensures
                        e == rows@[y as int]@[x as int],
                    {
                        rows[y].get(x)
                    }),
            );
            proof {
                lemma_grid_ext(r@, Grid::from_fn(n as nat, m as nat, |x: int, y: int| rows@[y]@[x]));
            }
            r
        }
    }

    /// The values of a single-row or single-column matrix, as a vector.
    pub fn to_vector(self) -> (r: Vector<T>)
        requires
            self.wf(),
            self@.n == 1 || self@.m == 1,
        ensures
            r@ == if self@.n == 1 {
                self@.cols[0]
            } else {
                self@.row(0)
            },
    {
        proof {
            self.lemma_view();
            if self.n == 1 {
                assert(0 * self.m == 0 && 1 * self.m == self.m) by (nonlinear_arith);
                assert(self.data@.subrange(0, self.m as int) =~= self.data@);
                assert(self.data@ =~= self@.cols[0]);
            } else {
                assert(self.n * 1 == self.n) by (nonlinear_arith);
                assert forall|x: int| 0 <= x < self.n implies self.data@[x] == self@.row(0)[x] by {
                    assert(pos(1, x, 0) == x) by (nonlinear_arith);
                    assert(self@.at(x, 0) == self.data@[pos(1, x, 0)]);
                }
                assert(self.data@ =~= self@.row(0));
            }
        }
        Vector::from_vec(self.data)
    }

    /// A copy of this matrix.
    pub fn copy(&self) -> (r: Self)
        requires
            self.wf(),
        ensures
            r.wf(),
            r@ == self@,
    {
        proof {
            self.lemma_view();
        }
        let r = Matrix::new(
            self.n,
            self.m,
            (|x: usize, y: usize| -> (v: T)
                requires
                    self.wf(),
                    x < self@.n,
                    y < self@.m,
                ensures
                    v == self@.at(x as int, y as int),
                {
                    self.get(x, y)
                }),
        );
        proof {
            lemma_grid_ext(r@, self@);
        }
        r
    }

    /// The transposed matrix: the value at `(x, y)` is this one's at `(y, x)`.
    pub fn transpose(&self) -> (r: Matrix<T>)
        requires
            self.wf(),
        ensures
            r.wf(),
            r@ == self@.transpose(),
    {
        proof {
            self.lemma_view();
            assert(self.m * self.n == self.n * self.m) by (nonlinear_arith);
        }
        let r = Matrix::new(
            self.m,
            self.n,
            (|x: usize, y: usize| -> (v: T)
                requires
                    self.wf(),
                    x < self@.m,
                    y < self@.n,
                ensures
                    v == self@.at(y as int, x as int),
                {
                    self.get(y, x)
                }),
        );
        proof {
            lemma_grid_ext(r@, self@.transpose());
        }
        r
    }
}

impl Matrix<i64> {
    /// The `n` by `m` matrix of zeros.
    pub fn zero(n: usize, m: usize) -> (r: Self)
        requires
            n * m <= usize::MAX,
        ensures
            r.wf(),
            r@ == Grid::from_fn(n as nat, m as nat, |x: int, y: int| 0i64),
    {
        let r = Matrix::new(
            n,
            m,
            (|x: usize, y: usize| -> (v: i64)
                ensures
                    v == 0,
                {
                    0i64
                }),
        );
        proof {
            lemma_grid_ext(r@, Grid::from_fn(n as nat, m as nat, |x: int, y: int| 0i64));
        }
        r
    }

    /// The square matrix with `vector` on its diagonal and zeros elsewhere.
    pub fn diagonal(vector: Vector<i64>) -> (r: Self)
        requires
            vector@.len() * vector@.len() <= usize::MAX,
        ensures
            r.wf(),
            r@ == Grid::from_fn(
                vector@.len(),
                vector@.len(),
                |x: int, y: int|
                    if x == y {
                        vector@[x]
                    } else {
                        0i64
                    },
            ),
    {
        let n = vector.dim();
        let r = Matrix::new(
            n,
            n,
            (|x: usize, y: usize| -> (v: i64)
                requires
                    x < vector@.len(),
                ensures
                    v == if x == y {
                        vector@[x as int]
                    } else {
                        0i64
                    },
                {
                    if x == y {
                        vector.get(x)
                    } else {
                        0i64
                    }
                }),
        );
        proof {
            lemma_grid_ext(
                r@,
                Grid::from_fn(
                    n as nat,
                    n as nat,
                    |x: int, y: int|
                        if x == y {
                            vector@[x]
                        } else {
                            0i64
                        },
                ),
            );
        }
        r
    }

    /// The `n` by `n` matrix with `value` on its diagonal and zeros elsewhere.
    pub fn scalar(n: usize, value: i64) -> (r: Self)
        requires
            n * n <= usize::MAX,
        ensures
            r.wf(),
            r@ == Grid::from_fn(
                n as nat,
                n as nat,
                |x: int, y: int|
                    if x == y {
                        value
                    } else {
                        0i64
                    },
            ),
    {
        let v = Vector::from_copies(n, value);
        let r = Matrix::diagonal(v);
        proof {
            lemma_grid_ext(
                r@,
                Grid::from_fn(
                    n as nat,
                    n as nat,
                    |x: int, y: int|
                        if x == y {
                            value
                        } else {
                            0i64
                        },
                ),
            );
        }
        r
    }

    /// The `n` by `n` identity matrix.
    pub fn identity(n: usize) -> (r: Self)
        requires
            n * n <= usize::MAX,
        ensures
            r.wf(),
            r@ == identity_of(n as nat),
    {
        let r = Matrix::scalar(n, 1i64);
        proof {
            lemma_grid_ext(r@, identity_of(n as nat));
        }
        r
    }

    /// The expansion from column `i` on, with the rows marked in `used` taken.
    fn expand(&self, i: usize, used: &mut Vec<bool>) -> (r: i64)
        requires
            self.wf(),
            self@.n == self@.m,
            i <= self@.n,
            old(used)@.len() == self@.n,
            expand_fits(self@, i as int, marked(old(used)@)),
        ensures
            r == expand_from(self@, i as int, marked(old(used)@)),
            final(used)@ == old(used)@,
        decreases self@.n - i,
    {
        let n = self.n;
        if i == n {
            return 1;
        }
        let ghost s = marked(used@);
        let ghost u0 = used@;
        let mut acc: i64 = 0;
        let mut j: usize = 0;
        while j < n
            invariant
                self.wf(),
                n == self@.n,
                n == self@.m,
                i < n,
                used@ == u0,
                s == marked(u0),
                u0.len() == n,
                j <= n,
                expand_upto_fits(self@, i as int, s, n as int),
                acc == expand_upto(self@, i as int, s, j as int),
            decreases n - j,
        {
            proof {
                lemma_upto_fits_prefix(self@, i as int, s, n as int, j + 1);
            }
            if !used[j] {
                used[j] = true;
                proof {
                    assert(marked(used@) =~= s.insert(j as int));
                }
                let sub = self.expand(i + 1, used);
                used[j] = false;
                proof {
                    assert(used@ =~= u0);
                }
                let t = self.get(i, j) * sub;
                acc = acc + t;
            }
            j = j + 1;
        }
        acc
    }

    /// The sum, over every permutation `s` of the rows, of the products of
    /// the values at `(i, s(i))`, with no sign attached; zero when the matrix
    /// is not square. It visits all `n!` permutations.
    pub fn determinant(&self) -> (r: i64)
        requires
            self.wf(),
            det_fits(self@),
        ensures
            r == det_of(self@),
    {
        if self.m != self.n {
            return 0;
        }
        let mut used: Vec<bool> = Vec::new();
        let mut k: usize = 0;
        while k < self.n
            invariant
                k <= self.n,
                used@ == Seq::new(k as nat, |j: int| false),
            decreases self.n - k,
        {
            used.push(false);
            k = k + 1;
            assert(used@ =~= Seq::new(k as nat, |j: int| false));
        }
        assert(marked(used@) =~= Set::<int>::empty());
        self.expand(0, &mut used)
    }

    /// The first row from `k` down with a nonzero value in column `k`.
    fn find_pivot(&self, k: usize) -> (r: Option<usize>)
        requires
            self.wf(),
            k < self@.n,
        ensures
            match r {
                None => pivot_row(self@, k as int, k as int) is None,
                Some(j) => pivot_row(self@, k as int, k as int) == Some(j as int) && k <= j
                    < self@.m,
            },
    {
        let mut i: usize = k;
        while i < self.m
            invariant
                self.wf(),
                k < self@.n,
                k <= i,
                pivot_row(self@, k as int, k as int) == pivot_row(self@, k as int, i as int),
            decreases self@.m - i,
        {
            if self.get(k, i) != 0 {
                return Some(i);
            }
            i = i + 1;
        }
        None
    }

    /// Divides row `k` by its value in column `k`, from column `k` on.
    fn divide_row(&mut self, k: usize)
        requires
            old(self).wf(),
            k < old(self)@.n,
            k < old(self)@.m,
            old(self)@.at(k as int, k as int) != 0,
            forall|x: int|
                k <= x < old(self)@.n ==> is_i64(
                    quot(
                        #[trigger] old(self)@.at(x, k as int) as int,
                        old(self)@.at(k as int, k as int) as int,
                    ),
                ),
        ensures
            final(self).wf(),
            final(self)@ == divided(old(self)@, k as int),
    {
        let ghost g0 = self@;
        proof {
            self.lemma_view();
        }
        let pivot = self.get(k, k);
        let n = self.n;
        let mut x: usize = k;
        while x < n
            invariant
                self.wf(),
                self@.wf(),
                g0.wf(),
                n == self@.n,
                n == g0.n,
                self@.m == g0.m,
                k < g0.m,
                k <= x <= n,
                pivot == g0.at(k as int, k as int),
                pivot != 0,
                forall|x2: int|
                    k <= x2 < g0.n ==> is_i64(quot(#[trigger] g0.at(x2, k as int) as int, pivot as int)),
                forall|x2: int, y: int|
                    0 <= x2 < n && 0 <= y < g0.m ==> #[trigger] self@.at(x2, y) == if y == k && k
                        <= x2 < x {
                        quot(g0.at(x2, k as int) as int, pivot as int) as i64
                    } else {
                        g0.at(x2, y)
                    },
            decreases n - x,
        {
            let v = quot_i64(self.get(x, k), pivot);
            proof {
                lemma_set(self@, x as int, k as int, v);
            }
            self.set(x, k, v);
            x = x + 1;
        }
        proof {
            lemma_grid_ext(self@, divided(g0, k as int));
        }
    }

    /// Subtracts from every row but `k` its value in column `k` times row
    /// `k`, from column `k` on.
    fn clear_column(&mut self, k: usize)
        requires
            old(self).wf(),
            k < old(self)@.n,
            k < old(self)@.m,
            forall|x: int, y: int|
                k <= x < old(self)@.n && 0 <= y < old(self)@.m && y != k ==> {
                    &&& is_i64(#[trigger] old(self)@.at(k as int, y) * #[trigger] old(self)@.at(x, k as int))
                    &&& is_i64(old(self)@.at(x, y) - old(self)@.at(k as int, y) * old(self)@.at(x, k as int))
                },
        ensures
            final(self).wf(),
            final(self)@ == cleared(old(self)@, k as int),
    {
        let ghost g0 = self@;
        proof {
            self.lemma_view();
        }
        let n = self.n;
        let m = self.m;
        let mut y: usize = 0;
        while y < m
            invariant
                self.wf(),
                self@.wf(),
                g0.wf(),
                n == self@.n,
                n == g0.n,
                m == self@.m,
                m == g0.m,
                k < n,
                k < m,
                y <= m,
                forall|x: int, y2: int|
                    k <= x < n && 0 <= y2 < m && y2 != k ==> {
                        &&& is_i64(#[trigger] g0.at(k as int, y2) * #[trigger] g0.at(x, k as int))
                        &&& is_i64(g0.at(x, y2) - g0.at(k as int, y2) * g0.at(x, k as int))
                    },
                forall|x: int, y2: int|
                    0 <= x < n && 0 <= y2 < m ==> #[trigger] self@.at(x, y2) == if y2 < y && y2
                        != k && x >= k {
                        (g0.at(x, y2) - g0.at(k as int, y2) * g0.at(x, k as int)) as i64
                    } else {
                        g0.at(x, y2)
                    },
            decreases m - y,
        {
            if y != k {
                let value = self.get(k, y);
                let mut x: usize = k;
                while x < n
                    invariant
                        self.wf(),
                        self@.wf(),
                        g0.wf(),
                        n == self@.n,
                        n == g0.n,
                        m == self@.m,
                        m == g0.m,
                        k < n,
                        k < m,
                        y < m,
                        y != k,
                        k <= x <= n,
                        value == g0.at(k as int, y as int),
                        forall|x2: int, y2: int|
                            k <= x2 < n && 0 <= y2 < m && y2 != k ==> {
                                &&& is_i64(#[trigger] g0.at(k as int, y2) * #[trigger] g0.at(x2, k as int))
                                &&& is_i64(g0.at(x2, y2) - g0.at(k as int, y2) * g0.at(x2, k as int))
                            },
                        forall|x2: int, y2: int|
                            0 <= x2 < n && 0 <= y2 < m ==> #[trigger] self@.at(x2, y2) == if ((
                            y2 < y) || (y2 == y && x2 < x)) && y2 != k && x2 >= k {
                                (g0.at(x2, y2) - g0.at(k as int, y2) * g0.at(x2, k as int)) as i64
                            } else {
                                g0.at(x2, y2)
                            },
                    decreases n - x,
                {
                    let a = self.get(x, y);
                    let b = self.get(x, k);
                    assert(is_i64(g0.at(k as int, y as int) * g0.at(x as int, k as int)));
                    let v = a - value * b;
                    proof {
                        lemma_set(self@, x as int, y as int, v);
                    }
                    self.set(x, y, v);
                    x = x + 1;
                }
            }
            y = y + 1;
        }
        proof {
            lemma_grid_ext(self@, cleared(g0, k as int));
        }
    }

    /// The inverse found by Gauss-Jordan elimination, computed on a copy;
    /// `None` when the elimination finds a column without a nonzero pivot.
    pub fn inverse(&self) -> (r: Option<Self>)
        requires
            self.wf(),
            self@.n == self@.m,
            (self@.n + self@.n) * self@.n <= usize::MAX,
            inverse_fits(self@),
        ensures
            match r {
                None => inverse_of(self@) is None,
                Some(inv) => inv.wf() && inverse_of(self@) == Some(inv@),
            },
    {
        self.copy().invert_in_place()
    }

    /// The inverse found by Gauss-Jordan elimination, computed in this
    /// matrix's own storage; `None` when the elimination finds a column
    /// without a nonzero pivot. When every division of the elimination is
    /// exact, the result is the inverse on both sides
    /// (`exact_inverse::lemma_exact_inverse_is_left_inverse` and
    /// `lemma_exact_inverse_is_right_inverse`).
    pub fn invert_in_place(self) -> (r: Option<Self>)
        requires
            self.wf(),
            self@.n == self@.m,
            (self@.n + self@.n) * self@.n <= usize::MAX,
            inverse_fits(self@),
        ensures
            match r {
                None => inverse_of(self@) is None,
                Some(inv) => inv.wf() && inverse_of(self@) == Some(inv@),
            },
    {
        let ghost a0 = self@;
        proof {
            self.lemma_view();
            assert(self.n * self.n <= (self.n + self.n) * self.n) by (nonlinear_arith);
            if self.n > 0 {
                assert(self.n + self.n <= (self.n + self.n) * self.n) by (nonlinear_arith)
                    requires
                        self.n > 0,
                ;
            }
        }
        let n = self.n;
        let mut a = self;
        let id = Matrix::identity(n);
        a.append_cols(id);
        let ghost g0 = a@;
        assert(g0 == augment(a0));
        let mut k: usize = 0;
        while k < n
            invariant
                a.wf(),
                a@.n == n + n,
                a@.m == n,
                k <= n,
                g0 == augment(a0),
                a0 == self@,
                a0.n == n,
                run_from(g0, 0, n as int) == run_from(a@, k as int, n as int),
                run_fits(a@, k as int, n as int),
            decreases n - k,
        {
            let j = match a.find_pivot(k) {
                None => {
                    proof {
                        assert(run_from(a@, k as int, n as int) is None);
                    }
                    return None;
                },
                Some(j) => j,
            };
            let ghost g = a@;
            proof {
                lemma_pivot_row(g, k as int, k as int);
            }
            a.swap_rows(j, k);
            proof {
                assert(a@ == swapped(g, k as int, j as int));
                a.lemma_view();
            }
            a.divide_row(k);
            a.clear_column(k);
            k = k + 1;
        }
        a.keep_cols(n..n + n);
        proof {
            assert(a@ == right_half(run_from(g0, 0, n as int)->0, n as nat));
        }
        Some(a)
    }

    /// The sum of the squares of all values, in storage order.
    pub fn norm(&self) -> (r: i64)
        requires
            self.wf(),
            dot_fits(self@.entries(), self@.entries()),
        ensures
            r == dot_of(self@.entries(), self@.entries()),
    {
        proof {
            self.lemma_entries();
        }
        let v = Vector::from_slice(self.data.as_slice());
        v.norm_sq()
    }

    /// The dot product of row `y` of `self` with column `x` of `other`.
    fn cell_product(&self, other: &Matrix<i64>, x: usize, y: usize) -> (r: i64)
        requires
            self.wf(),
            other.wf(),
            self@.n == other@.m,
            x < other@.n,
            y < self@.m,
            dot_fits(self@.row(y as int), other@.cols[x as int]),
        ensures
            r == dot_of(self@.row(y as int), other@.cols[x as int]),
    {
        let ghost a = self@.row(y as int);
        let ghost b = other@.cols[x as int];
        proof {
            other.lemma_view();
        }
        let n = self.n;
        let mut acc: i64 = 0;
        let mut i: usize = 0;
        while i < n
            invariant
                self.wf(),
                other.wf(),
                other@.wf(),
                n == self@.n,
                n == other@.m,
                x < other@.n,
                y < self@.m,
                a == self@.row(y as int),
                b == other@.cols[x as int],
                a.len() == n,
                b.len() == n,
                dot_fits(a, b),
                i <= n,
                acc == dot_upto(a, b, i as int),
            decreases n - i,
        {
            assert(dot_upto(a, b, i + 1) == dot_upto(a, b, i as int) + a[i as int] * b[i as int]);
            assert(is_i64(a[i as int] * b[i as int]) && is_i64(dot_upto(a, b, i + 1)));
            let p = self.get(i, y) * other.get(x, i);
            acc = acc + p;
            i = i + 1;
        }
        acc
    }

    /// The matrix product `self * other`; `self` has as many columns as
    /// `other` has rows.
    pub fn mul(&self, other: &Matrix<i64>) -> (r: Matrix<i64>)
        requires
            self.wf(),
            other.wf(),
            self@.n == other@.m,
            other@.n * self@.m <= usize::MAX,
            mul_fits(self@, other@),
        ensures
            r.wf(),
            r@ == mat_mul(self@, other@),
    {
        let r = Matrix::new(
            other.n,
            self.m,
            (|x: usize, y: usize| -> (v: i64)
                requires
                    self.wf(),
                    other.wf(),
                    self@.n == other@.m,
                    x < other@.n,
                    y < self@.m,
                    mul_fits(self@, other@),
                ensures
                    v == dot_of(self@.row(y as int), other@.cols[x as int]),
                {
                    self.cell_product(other, x, y)
                }),
        );
        proof {
            lemma_grid_ext(r@, mat_mul(self@, other@));
        }
        r
    }

    /// The product of this matrix with the column vector `v`.
    pub fn mul_vector(&self, v: &Vector<i64>) -> (r: Vector<i64>)
        requires
            self.wf(),
            self@.n == v@.len(),
            forall|y: int| 0 <= y < self@.m ==> dot_fits(#[trigger] self@.row(y), v@),
        ensures
            r@ == mat_mul_vec(self@, v@),
    {
        let col = Matrix::from_col(v);
        proof {
            self.lemma_view();
            col.lemma_view();
            assert(1 * self.m == self.m) by (nonlinear_arith);
            assert forall|x: int, y: int| 0 <= x < col@.n && 0 <= y < self@.m implies dot_fits(
                #[trigger] self@.row(y),
                #[trigger] col@.cols[x],
            ) by {
                assert(col@.cols[x] =~= v@);
            }
        }
        let p = self.mul(&col);
        proof {
            p.lemma_view();
            assert(col@.cols[0] =~= v@);
            assert(p@.cols[0] =~= mat_mul_vec(self@, v@));
        }
        p.to_vector()
    }

    /// The entrywise sum of two matrices of one shape.
    pub fn add(&self, other: &Matrix<i64>) -> (r: Matrix<i64>)
        requires
            self.wf(),
            other.wf(),
            self@.n == other@.n,
            self@.m == other@.m,
            forall|x: int, y: int|
                0 <= x < self@.n && 0 <= y < self@.m ==> is_i64(
                    #[trigger] self@.at(x, y) + other@.at(x, y),
                ),
        ensures
            r.wf(),
            r@ == mat_add(self@, other@),
    {
        proof {
            self.lemma_view();
        }
        let r = Matrix::new(
            self.n,
            self.m,
            (|x: usize, y: usize| -> (v: i64)
                requires
                    self.wf(),
                    other.wf(),
                    self@.n == other@.n,
                    self@.m == other@.m,
                    x < self@.n,
                    y < self@.m,
                    is_i64(self@.at(x as int, y as int) + other@.at(x as int, y as int)),
                ensures
                    v == self@.at(x as int, y as int) + other@.at(x as int, y as int),
                {
                    self.get(x, y) + other.get(x, y)
                }),
        );
        proof {
            lemma_grid_ext(r@, mat_add(self@, other@));
        }
        r
    }

    /// The entrywise difference of two matrices of one shape.
    pub fn sub(&self, other: &Matrix<i64>) -> (r: Matrix<i64>)
        requires
            self.wf(),
            other.wf(),
            self@.n == other@.n,
            self@.m == other@.m,
            forall|x: int, y: int|
                0 <= x < self@.n && 0 <= y < self@.m ==> is_i64(
                    #[trigger] self@.at(x, y) - other@.at(x, y),
                ),
        ensures
            r.wf(),
            r@ == mat_sub(self@, other@),
    {
        proof {
            self.lemma_view();
        }
        let r = Matrix::new(
            self.n,
            self.m,
            (|x: usize, y: usize| -> (v: i64)
                requires
                    self.wf(),
                    other.wf(),
                    self@.n == other@.n,
                    self@.m == other@.m,
                    x < self@.n,
                    y < self@.m,
                    is_i64(self@.at(x as int, y as int) - other@.at(x as int, y as int)),
                ensures
                    v == self@.at(x as int, y as int) - other@.at(x as int, y as int),
                {
                    self.get(x, y) - other.get(x, y)
                }),
        );
        proof {
            lemma_grid_ext(r@, mat_sub(self@, other@));
        }
        r
    }

    /// Every value multiplied by `k`.
    pub fn mul_scalar(&self, k: i64) -> (r: Matrix<i64>)
        requires
            self.wf(),
            forall|x: int, y: int|
                0 <= x < self@.n && 0 <= y < self@.m ==> is_i64(#[trigger] self@.at(x, y) * k),
        ensures
            r.wf(),
            r@ == mat_scale(self@, k),
    {
        proof {
            self.lemma_view();
        }
        let r = Matrix::new(
            self.n,
            self.m,
            (|x: usize, y: usize| -> (v: i64)
                requires
                    self.wf(),
                    x < self@.n,
                    y < self@.m,
                    is_i64(self@.at(x as int, y as int) * k),
                ensures
                    v == self@.at(x as int, y as int) * k,
                {
                    self.get(x, y) * k
                }),
        );
        proof {
            lemma_grid_ext(r@, mat_scale(self@, k));
        }
        r
    }

    /// Every value divided by `k`, rounding toward zero.
    pub fn div_scalar(&self, k: i64) -> (r: Matrix<i64>)
        requires
            self.wf(),
            k != 0,
            forall|x: int, y: int|
                0 <= x < self@.n && 0 <= y < self@.m ==> is_i64(
                    quot(#[trigger] self@.at(x, y) as int, k as int),
                ),
        ensures
            r.wf(),
            r@ == mat_quot(self@, k),
    {
        proof {
            self.lemma_view();
        }
        let r = Matrix::new(
            self.n,
            self.m,
            (|x: usize, y: usize| -> (v: i64)
                requires
                    self.wf(),
                    k != 0,
                    x < self@.n,
                    y < self@.m,
                    is_i64(quot(self@.at(x as int, y as int) as int, k as int)),
                ensures
                    v == quot(self@.at(x as int, y as int) as int, k as int),
                {
                    quot_i64(self.get(x, y), k)
                }),
        );
        proof {
            lemma_grid_ext(r@, mat_quot(self@, k));
        }
        r
    }
}

impl<T> core::ops::Index<(usize, usize)> for Matrix<T> {
    type Output = T;

    /// The value at column `index.0`, row `index.1`.
    fn index(&self, index: (usize, usize)) -> (r: &T)
        ensures
            *r == self@.at(index.0 as int, index.1 as int),
    {
        let i = self.get_index(index.0, index.1);
        &self.data[i]
    }
}

impl<T> vstd::std_specs::core::IndexSpecImpl<(usize, usize)> for Matrix<T> {
    open spec fn index_req(&self, index: &(usize, usize)) -> bool {
        self.wf() && index.0 < self@.n && index.1 < self@.m
    }
}

impl<T: Copy> Clone for Matrix<T> {
    fn clone(&self) -> (r: Self)
        ensures
            r@ == self@,
    {
        Matrix { m: self.m, n: self.n, data: Vector::from_slice(self.data.as_slice()).into_vec() }
    }
}

} // verus!

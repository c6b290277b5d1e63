//! A compact dense matrix stored row by row, with the basic algebra.
//!
//! It shares its mathematical model, `Grid`, with `alg::Matrix`; only the
//! storage order differs: the value at column `x`, row `y` sits at `x + y * n`.
use vstd::prelude::*;

use crate::alg::arith::{dot_fits, dot_of, dot_upto, is_i64, quot, quot_i64};
use crate::alg::grid::{
    lemma_col_range, lemma_flat_index, lemma_flat_order, lemma_grid_ext, mat_add, mat_mul,
    mat_quot, mat_scale, mat_sub, mul_fits, pos, Grid,
};

verus! {

/// A matrix of `n` columns and `m` rows, stored row after row.
#[derive(PartialEq, Debug)]
pub struct Matrix<T> {
    /// Number of rows (the height).
    pub m: usize,
    /// Number of columns (the width).
    pub n: usize,
    data: Vec<T>,
}

impl<T> View for Matrix<T> {
    type V = Grid<T>;

    closed spec fn view(&self) -> Grid<T> {
        Grid::from_fn(
            self.n as nat,
            self.m as nat,
            |x: int, y: int| self.data@[pos(self.n as int, y, x)],
        )
    }
}

impl<T> Matrix<T> {
    /// The storage holds exactly `n * m` values.
    pub closed spec fn wf(&self) -> bool {
        &&& self.data@.len() == self.m * self.n
        &&& self.m * self.n <= usize::MAX
    }

    /// The number of columns.
    pub fn width(&self) -> (r: usize)
        ensures
            r == self@.n,
    {
        self.n
    }

    /// The number of rows.
    pub fn height(&self) -> (r: usize)
        ensures
            r == self@.m,
    {
        self.m
    }

    /// Creates an `n` by `m` matrix whose value at column `x`, row `y` is
    /// `f(x, y)`; `f` is called once for each cell, row after row.
    pub fn new<F: Fn(usize, usize) -> T>(n: usize, m: usize, f: F) -> (r: Self)
        requires
            m * n <= usize::MAX,
            forall|x: usize, y: usize| x < n && y < m ==> f.requires((x, y)),
        ensures
            r.wf(),
            r@.wf(),
            r@.n == n,
            r@.m == m,
            forall|x: int, y: int|
                0 <= x < n && 0 <= y < m ==> f.ensures((x as usize, y as usize), #[trigger] r@.at(x, y)),
    {
        let mut data: Vec<T> = Vec::new();
        let mut y: usize = 0;
        while y < m
            invariant
                m * n <= usize::MAX,
                forall|x: usize, y: usize| x < n && y < m ==> f.requires((x, y)),
                y <= m,
                data@.len() == y * n,
                forall|y2: int, x2: int|
                    0 <= y2 < y && 0 <= x2 < n ==> f.ensures(
                        (x2 as usize, y2 as usize),
                        #[trigger] data@[pos(n as int, y2, x2)],
                    ),
            decreases m - y,
        {
            let mut x: usize = 0;
            proof {
                lemma_col_range(m as int, n as int, y as int);
            }
            while x < n
                invariant
                    m * n <= usize::MAX,
                    forall|x: usize, y: usize| x < n && y < m ==> f.requires((x, y)),
                    y < m,
                    x <= n,
                    y * n + n <= m * n,
                    data@.len() == y * n + x,
                    forall|y2: int, x2: int|
                        0 <= y2 < y && 0 <= x2 < n ==> f.ensures(
                            (x2 as usize, y2 as usize),
                            #[trigger] data@[pos(n as int, y2, x2)],
                        ),
                    forall|x2: int|
                        0 <= x2 < x ==> f.ensures(
                            (x2 as usize, y as usize),
                            #[trigger] data@[pos(n as int, y as int, x2)],
                        ),
                decreases n - x,
            {
                let v = f(x, y);
                proof {
                    assert forall|y2: int, x2: int| 0 <= y2 < y && 0 <= x2 < n implies #[trigger] pos(
                        n as int,
                        y2,
                        x2,
                    ) < data@.len() by {
                        lemma_flat_order(n as int, y2, x2, y as int, 0);
                    }
                }
                data.push(v);
                x = x + 1;
            }
            proof {
                assert forall|y2: int, x2: int| 0 <= y2 < y + 1 && 0 <= x2 < n implies f.ensures(
                    (x2 as usize, y2 as usize),
                    #[trigger] data@[pos(n as int, y2, x2)],
                ) by {
                    if y2 == y {
                        assert(pos(n as int, y as int, x2) == pos(n as int, y2, x2));
                    }
                }
                assert((y + 1) * n == y * n + n) by (nonlinear_arith);
            }
            y = y + 1;
        }
        let r = Matrix { m, n, data };
        proof {
            assert forall|x: int| 0 <= x < r@.n implies (#[trigger] r@.cols[x]).len() == r@.m by {}
        }
        r
    }
}

impl<T: Copy> Matrix<T> {
    /// The value at column `x`, row `y`.
    pub fn get(&self, x: usize, y: usize) -> (r: T)
        requires
            self.wf(),
            x < self@.n,
            y < self@.m,
        ensures
            r == self@.at(x as int, y as int),
    {
        proof {
            lemma_flat_index(self.m as int, self.n as int, y as int, x as int);
        }
        self.data[x + y * self.n]
    }
}

impl<T> core::ops::Index<(usize, usize)> for Matrix<T> {
    type Output = T;

    /// The value at column `index.0`, row `index.1`.
    fn index(&self, index: (usize, usize)) -> (r: &T)
        ensures
            *r == self@.at(index.0 as int, index.1 as int),
    {
        proof {
            lemma_flat_index(self.m as int, self.n as int, index.1 as int, index.0 as int);
        }
        &self.data[index.0 + index.1 * self.n]
    }
}

impl<T> vstd::std_specs::core::IndexSpecImpl<(usize, usize)> for Matrix<T> {
    open spec fn index_req(&self, index: &(usize, usize)) -> bool {
        self.wf() && index.0 < self@.n && index.1 < self@.m
    }
}

impl Matrix<i64> {
    /// The `n` by `n` matrix with `value` on its diagonal and zeros elsewhere.
    pub fn diagonal(n: usize, value: i64) -> (r: Self)
        requires
            n * n <= usize::MAX,
        ensures
            r.wf(),
            r@ == Grid::from_fn(
                n as nat,
                n as nat,
                |x: int, y: int|
                    if x == y {
                        value
                    } else {
                        0i64
                    },
            ),
    {
        let r = Matrix::new(
            n,
            n,
            (|x: usize, y: usize| -> (v: i64)
                ensures
                    v == if x == y {
                        value
                    } else {
                        0i64
                    },
                {
                    if x == y {
                        value
                    } else {
                        0i64
                    }
                }),
        );
        proof {
            lemma_grid_ext(
                r@,
                Grid::from_fn(
                    n as nat,
                    n as nat,
                    |x: int, y: int|
                        if x == y {
                            value
                        } else {
                            0i64
                        },
                ),
            );
        }
        r
    }

    /// The dot product of row `y` of `self` with column `x` of `other`.
    fn cell_product(&self, other: &Matrix<i64>, x: usize, y: usize) -> (r: i64)
        requires
            self.wf(),
            other.wf(),
            self@.n == other@.m,
            x < other@.n,
            y < self@.m,
            dot_fits(self@.row(y as int), other@.cols[x as int]),
        ensures
            r == dot_of(self@.row(y as int), other@.cols[x as int]),
    {
        let ghost a = self@.row(y as int);
        let ghost b = other@.cols[x as int];
        let n = self.n;
        let mut acc: i64 = 0;
        let mut i: usize = 0;
        while i < n
            invariant
                self.wf(),
                other.wf(),
                n == self@.n,
                n == other@.m,
                x < other@.n,
                y < self@.m,
                a == self@.row(y as int),
                b == other@.cols[x as int],
                a.len() == n,
                b.len() == n,
                dot_fits(a, b),
                i <= n,
                acc == dot_upto(a, b, i as int),
            decreases n - i,
        {
            assert(dot_upto(a, b, i + 1) == dot_upto(a, b, i as int) + a[i as int] * b[i as int]);
            assert(is_i64(a[i as int] * b[i as int]) && is_i64(dot_upto(a, b, i + 1)));
            let p = self.get(i, y) * other.get(x, i);
            acc = acc + p;
            i = i + 1;
        }
        acc
    }

    /// The matrix product `self * other`; `self` has as many columns as
    /// `other` has rows.
    pub fn mul(&self, other: &Matrix<i64>) -> (r: Matrix<i64>)
        requires
            self.wf(),
            other.wf(),
            self@.n == other@.m,
            self@.m * other@.n <= usize::MAX,
            mul_fits(self@, other@),
        ensures
            r.wf(),
            r@ == mat_mul(self@, other@),
    {
        let r = Matrix::new(
            other.n,
            self.m,
            (|x: usize, y: usize| -> (v: i64)
                requires
                    self.wf(),
                    other.wf(),
                    self@.n == other@.m,
                    x < other@.n,
                    y < self@.m,
                    mul_fits(self@, other@),
                ensures
                    v == dot_of(self@.row(y as int), other@.cols[x as int]),
                {
                    self.cell_product(other, x, y)
                }),
        );
        proof {
            lemma_grid_ext(r@, mat_mul(self@, other@));
        }
        r
    }

    /// The entrywise sum of two matrices of one shape.
    pub fn add(&self, other: &Matrix<i64>) -> (r: Matrix<i64>)
        requires
            self.wf(),
            other.wf(),
            self@.n == other@.n,
            self@.m == other@.m,
            forall|x: int, y: int|
                0 <= x < self@.n && 0 <= y < self@.m ==> is_i64(
                    #[trigger] self@.at(x, y) + other@.at(x, y),
                ),
        ensures
            r.wf(),
            r@ == mat_add(self@, other@),
    {
        let r = Matrix::new(
            self.n,
            self.m,
            (|x: usize, y: usize| -> (v: i64)
                requires
                    self.wf(),
                    other.wf(),
                    self@.n == other@.n,
                    self@.m == other@.m,
                    x < self@.n,
                    y < self@.m,
                    is_i64(self@.at(x as int, y as int) + other@.at(x as int, y as int)),
                ensures
                    v == self@.at(x as int, y as int) + other@.at(x as int, y as int),
                {
                    self.get(x, y) + other.get(x, y)
                }),
        );
        proof {
            lemma_grid_ext(r@, mat_add(self@, other@));
        }
        r
    }

    /// The entrywise difference of two matrices of one shape.
    pub fn sub(&self, other: &Matrix<i64>) -> (r: Matrix<i64>)
        requires
            self.wf(),
            other.wf(),
            self@.n == other@.n,
            self@.m == other@.m,
            forall|x: int, y: int|
                0 <= x < self@.n && 0 <= y < self@.m ==> is_i64(
                    #[trigger] self@.at(x, y) - other@.at(x, y),
                ),
        ensures
            r.wf(),
            r@ == mat_sub(self@, other@),
    {
        let r = Matrix::new(
            self.n,
            self.m,
            (|x: usize, y: usize| -> (v: i64)
                requires
                    self.wf(),
                    other.wf(),
                    self@.n == other@.n,
                    self@.m == other@.m,
                    x < self@.n,
                    y < self@.m,
                    is_i64(self@.at(x as int, y as int) - other@.at(x as int, y as int)),
                ensures
                    v == self@.at(x as int, y as int) - other@.at(x as int, y as int),
                {
                    self.get(x, y) - other.get(x, y)
                }),
        );
        proof {
            lemma_grid_ext(r@, mat_sub(self@, other@));
        }
        r
    }

    /// Every value multiplied by `k`.
    pub fn mul_scalar(&self, k: i64) -> (r: Matrix<i64>)
        requires
            self.wf(),
            forall|x: int, y: int|
                0 <= x < self@.n && 0 <= y < self@.m ==> is_i64(#[trigger] self@.at(x, y) * k),
        ensures
            r.wf(),
            r@ == mat_scale(self@, k),
    {
        let r = Matrix::new(
            self.n,
            self.m,
            (|x: usize, y: usize| -> (v: i64)
                requires
                    self.wf(),
                    x < self@.n,
                    y < self@.m,
                    is_i64(self@.at(x as int, y as int) * k),
                ensures
                    v == self@.at(x as int, y as int) * k,
                {
                    self.get(x, y) * k
                }),
        );
        proof {
            lemma_grid_ext(r@, mat_scale(self@, k));
        }
        r
    }

    /// Every value divided by `k`, rounding toward zero.
    pub fn div_scalar(&self, k: i64) -> (r: Matrix<i64>)
        requires
            self.wf(),
            k != 0,
            forall|x: int, y: int|
                0 <= x < self@.n && 0 <= y < self@.m ==> is_i64(
                    quot(#[trigger] self@.at(x, y) as int, k as int),
                ),
        ensures
            r.wf(),
            r@ == mat_quot(self@, k),
    {
        let r = Matrix::new(
            self.n,
            self.m,
            (|x: usize, y: usize| -> (v: i64)
                requires
                    self.wf(),
                    k != 0,
                    x < self@.n,
                    y < self@.m,
                    is_i64(quot(self@.at(x as int, y as int) as int, k as int)),
                ensures
                    v == quot(self@.at(x as int, y as int) as int, k as int),
                {
                    quot_i64(self.get(x, y), k)
                }),
        );
        proof {
            lemma_grid_ext(r@, mat_quot(self@, k));
        }
        r
    }
}

} // verus!

//! What the Gauss-Jordan elimination finds when its divisions are exact: an
//! inverse, on the left and on the right.
//!
//! Left: throughout the elimination on `[a | I]`, each row of the left half
//! is the combination of the rows of `a` whose coefficients stand in the
//! right half of that row, and the columns already processed hold the
//! identity.
//!
//! Right: each row operation on the augmented matrix `G` is undone by a
//! column operation on a companion `F`, kept so that `F * G` stays equal to
//! `[a | I]`. When the left half of `G` has become the identity, `F` is `a`,
//! and the right half of the same product reads `a * inverse == I`.
use vstd::prelude::*;

use crate::alg::arith::{dot_of, dot_upto, is_i64, quot};
use crate::alg::gauss::{
    augment, cleared, divided, inverse_fits, inverse_of, lemma_pivot_row, pivot_row, right_half,
    run_fits, run_from, step, swapped,
};
use crate::alg::grid::{identity_of, lemma_grid_ext, mat_mul, Grid};

verus! {

/// Every division in the step for column `k` with pivot row `j` leaves no
/// remainder.
pub open spec fn step_exact(g: Grid<i64>, k: int, j: int) -> bool {
    let s = swapped(g, k, j);
    forall|x: int|
        k <= x < s.n ==> quot(#[trigger] s.at(x, k) as int, s.at(k, k) as int) * s.at(k, k) == s.at(
            x,
            k,
        )
}

/// Every division of the elimination from column `k` on leaves no remainder.
pub open spec fn run_exact(g: Grid<i64>, k: int, n: int) -> bool
    decreases n - k,
{
    if k >= n {
        true
    } else {
        match pivot_row(g, k, k) {
            None => true,
            Some(j) => step_exact(g, k, j) && run_exact(step(g, k, j), k + 1, n),
        }
    }
}

/// Every division of the elimination on `a` leaves no remainder.
pub open spec fn inverse_exact(a: Grid<i64>) -> bool {
    run_exact(augment(a), 0, a.n as int)
}

/// The right half of row `y` of `g`: the coefficients of that row.
pub open spec fn coeffs(g: Grid<i64>, n: int, y: int) -> Seq<i64> {
    Seq::new(n as nat, |i: int| g.at(n + i, y))
}

/// Each value of the left half of `g` is the combination, with the
/// coefficients of its row, of the values of `a` in its column.
pub open spec fn combines(g: Grid<i64>, a: Grid<i64>, n: int) -> bool {
    forall|x: int, y: int|
        0 <= x < n && 0 <= y < n ==> #[trigger] g.at(x, y) == dot_of(coeffs(g, n, y), a.cols[x])
}

/// The columns before `k` hold the identity.
pub open spec fn reduced(g: Grid<i64>, k: int, n: int) -> bool {
    forall|x: int, y: int|
        0 <= x < k && 0 <= y < n ==> #[trigger] g.at(x, y) == if x == y {
            1i64
        } else {
            0i64
        }
}

/// The shape of the augmented matrix during the elimination.
pub open spec fn shaped(g: Grid<i64>, n: int) -> bool {
    g.wf() && g.n == n + n && g.m == n && n >= 0
}

proof fn lemma_dot_scale(u: Seq<i64>, w: Seq<i64>, c: Seq<i64>, p: int, k: int)
    requires
        forall|i: int| 0 <= i < k ==> #[trigger] u[i] == p * w[i],
    ensures
        dot_upto(u, c, k) == p * dot_upto(w, c, k),
    decreases k,
{
    if k > 0 {
        lemma_dot_scale(u, w, c, p, k - 1);
        let (a, b, d, s) = (u[k - 1] as int, w[k - 1] as int, c[k - 1] as int, dot_upto(w, c, k - 1));
        assert(a == p * b);
        assert(p * s + a * d == p * (s + b * d)) by (nonlinear_arith)
            requires
                a == p * b,
        ;
    }
}

proof fn lemma_dot_combine(u2: Seq<i64>, u: Seq<i64>, w: Seq<i64>, c: Seq<i64>, v: int, k: int)
    requires
        forall|i: int| 0 <= i < k ==> #[trigger] u2[i] == u[i] - v * w[i],
    ensures
        dot_upto(u2, c, k) == dot_upto(u, c, k) - v * dot_upto(w, c, k),
    decreases k,
{
    if k > 0 {
        lemma_dot_combine(u2, u, w, c, v, k - 1);
        let (a2, a, b, d) = (u2[k - 1] as int, u[k - 1] as int, w[k - 1] as int, c[k - 1] as int);
        let (s, t) = (dot_upto(u, c, k - 1), dot_upto(w, c, k - 1));
        assert(a2 == a - v * b);
        assert(s - v * t + a2 * d == (s + a * d) - v * (t + b * d)) by (nonlinear_arith)
            requires
                a2 == a - v * b,
        ;
    }
}

proof fn lemma_dot_unit(e: Seq<i64>, c: Seq<i64>, y: int, k: int)
    requires
        forall|i: int| 0 <= i < k ==> #[trigger] e[i] == if i == y {
            1i64
        } else {
            0i64
        },
    ensures
        dot_upto(e, c, k) == if 0 <= y < k {
            c[y] as int
        } else {
            0
        },
    decreases k,
{
    if k > 0 {
        lemma_dot_unit(e, c, y, k - 1);
        assert(e[k - 1] == if k - 1 == y {
            1i64
        } else {
            0i64
        });
    }
}

/// Swapping the pivot row into place keeps both properties.
proof fn lemma_swap_keeps(g: Grid<i64>, a: Grid<i64>, n: int, k: int, j: int)
    requires
        shaped(g, n),
        0 <= k <= j < n,
        combines(g, a, n),
        reduced(g, k, n),
    ensures
        shaped(swapped(g, k, j), n),
        combines(swapped(g, k, j), a, n),
        reduced(swapped(g, k, j), k, n),
{
    let s = swapped(g, k, j);
    assert forall|x: int| 0 <= x < s.n implies (#[trigger] s.cols[x]).len() == s.m by {}
    assert forall|x: int, y: int| 0 <= x < n && 0 <= y < n implies #[trigger] s.at(x, y) == dot_of(
        coeffs(s, n, y),
        a.cols[x],
    ) by {
        let t = if y == j {
            k
        } else if y == k {
            j
        } else {
            y
        };
        assert(coeffs(s, n, y) =~= coeffs(g, n, t));
        assert(g.at(x, t) == dot_of(coeffs(g, n, t), a.cols[x]));
    }
    assert forall|x: int, y: int| 0 <= x < k && 0 <= y < n implies #[trigger] s.at(x, y) == if x
        == y {
        1i64
    } else {
        0i64
    } by {
        let t = if y == j {
            k
        } else if y == k {
            j
        } else {
            y
        };
        assert(g.at(x, t) == if x == t {
            1i64
        } else {
            0i64
        });
    }
}

/// Dividing the pivot row keeps both properties and puts 1 on the pivot.
proof fn lemma_divide_keeps(s: Grid<i64>, a: Grid<i64>, n: int, k: int)
    requires
        shaped(s, n),
        a.wf(),
        a.n == n,
        a.m == n,
        0 <= k < n,
        s.at(k, k) != 0,
        combines(s, a, n),
        reduced(s, k, n),
        forall|x: int|
            k <= x < s.n ==> is_i64(quot(#[trigger] s.at(x, k) as int, s.at(k, k) as int)),
        forall|x: int|
            k <= x < s.n ==> quot(#[trigger] s.at(x, k) as int, s.at(k, k) as int) * s.at(k, k)
                == s.at(x, k),
    ensures
        shaped(divided(s, k), n),
        combines(divided(s, k), a, n),
        reduced(divided(s, k), k, n),
        divided(s, k).at(k, k) == 1,
{
    let d = divided(s, k);
    let p = s.at(k, k) as int;
    assert forall|x: int| 0 <= x < d.n implies (#[trigger] d.cols[x]).len() == d.m by {}
    let w = coeffs(d, n, k);
    let u = coeffs(s, n, k);
    assert forall|i: int| 0 <= i < n implies #[trigger] u[i] == p * w[i] by {
        assert(quot(s.at(n + i, k) as int, p) * p == s.at(n + i, k));
        assert(quot(s.at(n + i, k) as int, p) * p == p * quot(s.at(n + i, k) as int, p))
            by (nonlinear_arith);
    }
    assert forall|x: int, y: int| 0 <= x < n && 0 <= y < n implies #[trigger] d.at(x, y) == dot_of(
        coeffs(d, n, y),
        a.cols[x],
    ) by {
        if y != k {
            assert(coeffs(d, n, y) =~= coeffs(s, n, y));
            assert(s.at(x, y) == dot_of(coeffs(s, n, y), a.cols[x]));
        } else {
            assert(s.at(x, k) == dot_of(u, a.cols[x]));
            lemma_dot_scale(u, w, a.cols[x], p, n);
            let big_d = dot_of(w, a.cols[x]);
            assert(s.at(x, k) == p * big_d);
            if x >= k {
                let q = quot(s.at(x, k) as int, p);
                assert(q * p == p * big_d);
                assert(q == big_d) by (nonlinear_arith)
                    requires
                        q * p == p * big_d,
                        p != 0,
                ;
            } else {
                assert(s.at(x, k) == 0);
                assert(big_d == 0) by (nonlinear_arith)
                    requires
                        0 == p * big_d,
                        p != 0,
                ;
            }
        }
    }
    assert(quot(p, p) * p == p);
    assert(quot(p, p) == 1) by (nonlinear_arith)
        requires
            quot(p, p) * p == p,
            p != 0,
    ;
}

/// Clearing the pivot column keeps the combination and extends the identity
/// by one column.
proof fn lemma_clear_keeps(d: Grid<i64>, a: Grid<i64>, n: int, k: int)
    requires
        shaped(d, n),
        a.wf(),
        a.n == n,
        a.m == n,
        0 <= k < n,
        d.at(k, k) == 1,
        combines(d, a, n),
        reduced(d, k, n),
        forall|x: int, y: int|
            k <= x < d.n && 0 <= y < d.m && y != k ==> {
                &&& is_i64(#[trigger] d.at(k, y) * #[trigger] d.at(x, k))
                &&& is_i64(d.at(x, y) - d.at(k, y) * d.at(x, k))
            },
    ensures
        shaped(cleared(d, k), n),
        combines(cleared(d, k), a, n),
        reduced(cleared(d, k), k + 1, n),
{
    let c = cleared(d, k);
    assert forall|x: int| 0 <= x < c.n implies (#[trigger] c.cols[x]).len() == c.m by {}
    assert forall|x: int, y: int| 0 <= x < c.n && 0 <= y < n && y != k implies #[trigger] c.at(x, y)
        == d.at(x, y) - d.at(k, y) * d.at(x, k) by {
        if x < k {
            assert(d.at(x, k) == 0);
        } else {
            assert(is_i64(d.at(x, y) - d.at(k, y) * d.at(x, k)));
        }
    }
    assert forall|x: int, y: int| 0 <= x < n && 0 <= y < n implies #[trigger] c.at(x, y) == dot_of(
        coeffs(c, n, y),
        a.cols[x],
    ) by {
        if y == k {
            assert(coeffs(c, n, y) =~= coeffs(d, n, y));
            assert(d.at(x, y) == dot_of(coeffs(d, n, y), a.cols[x]));
        } else {
            let v = d.at(k, y) as int;
            assert forall|i: int| 0 <= i < n implies #[trigger] coeffs(c, n, y)[i] == coeffs(
                d,
                n,
                y,
            )[i] - v * coeffs(d, n, k)[i] by {
                assert(c.at(n + i, y) == d.at(n + i, y) - d.at(k, y) * d.at(n + i, k));
            }
            lemma_dot_combine(coeffs(c, n, y), coeffs(d, n, y), coeffs(d, n, k), a.cols[x], v, n);
            assert(d.at(x, y) == dot_of(coeffs(d, n, y), a.cols[x]));
            assert(d.at(x, k) == dot_of(coeffs(d, n, k), a.cols[x]));
            assert(c.at(x, y) == d.at(x, y) - d.at(k, y) * d.at(x, k));
        }
    }
    assert forall|x: int, y: int| 0 <= x < k + 1 && 0 <= y < n implies #[trigger] c.at(x, y) == if x
        == y {
        1i64
    } else {
        0i64
    } by {
        if y != k {
            assert(c.at(x, y) == d.at(x, y) - d.at(k, y) * d.at(x, k));
            if x < k {
                assert(d.at(x, k) == 0);
            } else {
                assert(d.at(k, y) * 1 == d.at(k, y));
            }
        }
    }
}

/// The elimination from column `k` on keeps both properties to the end.
proof fn lemma_run_keeps(g: Grid<i64>, a: Grid<i64>, n: int, k: int)
    requires
        shaped(g, n),
        a.wf(),
        a.n == n,
        a.m == n,
        0 <= k <= n,
        combines(g, a, n),
        reduced(g, k, n),
        run_fits(g, k, n),
        run_exact(g, k, n),
        run_from(g, k, n) is Some,
    ensures
        shaped(run_from(g, k, n)->0, n),
        combines(run_from(g, k, n)->0, a, n),
        reduced(run_from(g, k, n)->0, n, n),
    decreases n - k,
{
    if k < n {
        lemma_pivot_row(g, k, k);
        let j = pivot_row(g, k, k)->0;
        lemma_swap_keeps(g, a, n, k, j);
        let s = swapped(g, k, j);
        lemma_divide_keeps(s, a, n, k);
        let d = divided(s, k);
        lemma_clear_keeps(d, a, n, k);
        lemma_run_keeps(step(g, k, j), a, n, k + 1);
    }
}

/// When the elimination on the square matrix `a` finds an inverse, stays in
/// range and divides without remainder, the inverse it finds is a left
/// inverse: `inverse * a` is the identity.
pub proof fn lemma_exact_inverse_is_left_inverse(a: Grid<i64>)
    requires
        a.wf(),
        a.n == a.m,
        inverse_fits(a),
        inverse_exact(a),
        inverse_of(a) is Some,
    ensures
        mat_mul(inverse_of(a)->0, a) == identity_of(a.n),
{
    let n = a.n as int;
    let g0 = augment(a);
    assert forall|x: int| 0 <= x < g0.n implies (#[trigger] g0.cols[x]).len() == g0.m by {
        if x >= n {
            assert(g0.cols[x] == identity_of(a.n).cols[x - n]);
        }
    }
    assert forall|x: int, y: int| 0 <= x < n && 0 <= y < n implies #[trigger] g0.at(x, y)
        == dot_of(coeffs(g0, n, y), a.cols[x]) by {
        assert forall|i: int| 0 <= i < n implies #[trigger] coeffs(g0, n, y)[i] == if i == y {
            1i64
        } else {
            0i64
        } by {
            assert(g0.cols[n + i] == identity_of(a.n).cols[i]);
        }
        lemma_dot_unit(coeffs(g0, n, y), a.cols[x], y, n);
    }
    lemma_run_keeps(g0, a, n, 0);
    let g = run_from(g0, 0, n)->0;
    let r = right_half(g, a.n);
    let p = mat_mul(r, a);
    assert forall|x: int, y: int| 0 <= x < n && 0 <= y < n implies p.at(x, y) == identity_of(
        a.n,
    ).at(x, y) by {
        assert(r.row(y) =~= coeffs(g, n, y));
        assert(g.at(x, y) == dot_of(coeffs(g, n, y), a.cols[x]));
    }
    assert forall|x: int| 0 <= x < r.n implies (#[trigger] r.cols[x]).len() == r.m by {
        assert(r.cols[x] == g.cols[n + x]);
    }
    lemma_grid_ext(p, identity_of(a.n));
}


/// `f(0) + ... + f(k - 1)`.
pub open spec fn sum(f: spec_fn(int) -> int, k: int) -> int
    decreases k,
{
    if k <= 0 {
        0
    } else {
        sum(f, k - 1) + f(k - 1)
    }
}

proof fn lemma_sum_ext(f: spec_fn(int) -> int, g: spec_fn(int) -> int, k: int)
    requires
        forall|t: int| 0 <= t < k ==> #[trigger] f(t) == g(t),
    ensures
        sum(f, k) == sum(g, k),
    decreases k,
{
    if k > 0 {
        lemma_sum_ext(f, g, k - 1);
    }
}

/// A sum of terms `f(t) - c * m(t)`, plus `d` at `t == k0`.
proof fn lemma_sum_combine(
    h: spec_fn(int) -> int,
    f: spec_fn(int) -> int,
    m: spec_fn(int) -> int,
    c: int,
    k0: int,
    d: int,
    k: int,
)
    requires
        forall|t: int|
            0 <= t < k ==> #[trigger] h(t) == f(t) - c * m(t) + if t == k0 {
                d
            } else {
                0
            },
    ensures
        sum(h, k) == sum(f, k) - c * sum(m, k) + if 0 <= k0 < k {
            d
        } else {
            0
        },
    decreases k,
{
    if k > 0 {
        lemma_sum_combine(h, f, m, c, k0, d, k - 1);
        let (s, t) = (sum(m, k - 1), m(k - 1));
        assert(c * s + c * t == c * (s + t)) by (nonlinear_arith);
    }
}

/// A sum of terms that vanish but at `k0`.
proof fn lemma_sum_point(f: spec_fn(int) -> int, k0: int, k: int)
    requires
        forall|t: int| 0 <= t < k && t != k0 ==> #[trigger] f(t) == 0,
    ensures
        sum(f, k) == if 0 <= k0 < k {
            f(k0)
        } else {
            0
        },
    decreases k,
{
    if k > 0 {
        lemma_sum_point(f, k0, k - 1);
    }
}

/// Exchanging two indices in range does not change a sum.
proof fn lemma_sum_swap(f: spec_fn(int) -> int, g: spec_fn(int) -> int, j: int, k0: int, n: int)
    requires
        0 <= j < n,
        0 <= k0 < n,
        forall|t: int|
            0 <= t < n ==> #[trigger] g(t) == f(
                if t == j {
                    k0
                } else if t == k0 {
                    j
                } else {
                    t
                },
            ),
    ensures
        sum(g, n) == sum(f, n),
{
    let e = |t: int| g(t) - f(t);
    let e1 = |t: int|
        if t == j && j != k0 {
            f(k0) - f(j)
        } else {
            0int
        };
    let e2 = |t: int|
        if t == k0 && j != k0 {
            f(j) - f(k0)
        } else {
            0int
        };
    lemma_sum_combine(g, f, e, -1, 0, 0, n);
    assert forall|t: int| 0 <= t < n implies #[trigger] e(t) == e1(t) - (-1) * e2(t) + if t == 0 {
        0int
    } else {
        0int
    } by {}
    lemma_sum_combine(e, e1, e2, -1, 0, 0, n);
    lemma_sum_point(e1, j, n);
    lemma_sum_point(e2, k0, n);
}


/// The terms of the value of `f * g` at column `x`, row `r`.
pub open spec fn term(f: spec_fn(int, int) -> int, g: Grid<i64>, x: int, r: int) -> spec_fn(
    int,
) -> int {
    |t: int| f(t, r) * g.at(x, t)
}

/// The product `f * g`, over the `n` rows of `g`, equals `target` on every
/// column of `g` and every row `r < n`.
pub open spec fn undoes(f: spec_fn(int, int) -> int, g: Grid<i64>, target: Grid<i64>, n: int) -> bool {
    forall|x: int, r: int|
        0 <= x < n + n && 0 <= r < n ==> #[trigger] sum(term(f, g, x, r), n) == target.at(x, r)
}

/// `f` with columns `j` and `k` exchanged.
pub open spec fn f_swap(f: spec_fn(int, int) -> int, j: int, k: int) -> spec_fn(int, int) -> int {
    |t: int, r: int|
        f(
            if t == j {
                k
            } else if t == k {
                j
            } else {
                t
            },
            r,
        )
}

/// `f` with column `k` multiplied by `p`.
pub open spec fn f_scale(f: spec_fn(int, int) -> int, k: int, p: int) -> spec_fn(int, int) -> int {
    |t: int, r: int|
        if t == k {
            p * f(t, r)
        } else {
            f(t, r)
        }
}

/// The multiples of the columns of `f` other than `k` that the clearing of
/// column `k` of `d` takes away, at row `r`.
pub open spec fn taken(f: spec_fn(int, int) -> int, d: Grid<i64>, k: int, r: int) -> spec_fn(
    int,
) -> int {
    |y: int|
        if y != k {
            d.at(k, y) * f(y, r)
        } else {
            0
        }
}

/// `f` with those multiples added back to column `k`.
pub open spec fn f_clear(f: spec_fn(int, int) -> int, d: Grid<i64>, k: int, n: int) -> spec_fn(
    int,
    int,
) -> int {
    |t: int, r: int|
        if t == k {
            f(k, r) + sum(taken(f, d, k, r), n)
        } else {
            f(t, r)
        }
}

proof fn lemma_swap_undoes(
    f: spec_fn(int, int) -> int,
    g: Grid<i64>,
    target: Grid<i64>,
    n: int,
    k: int,
    j: int,
)
    requires
        shaped(g, n),
        0 <= k <= j < n,
        undoes(f, g, target, n),
    ensures
        undoes(f_swap(f, j, k), swapped(g, k, j), target, n),
{
    let s = swapped(g, k, j);
    let f2 = f_swap(f, j, k);
    assert forall|x: int, r: int| 0 <= x < n + n && 0 <= r < n implies #[trigger] sum(
        term(f2, s, x, r),
        n,
    ) == target.at(x, r) by {
        let h = term(f, g, x, r);
        let h2 = term(f2, s, x, r);
        assert forall|t: int| 0 <= t < n implies #[trigger] h2(t) == h(
            if t == j {
                k
            } else if t == k {
                j
            } else {
                t
            },
        ) by {}
        lemma_sum_swap(h, h2, j, k, n);
    }
}

proof fn lemma_divide_undoes(
    f: spec_fn(int, int) -> int,
    s: Grid<i64>,
    target: Grid<i64>,
    n: int,
    k: int,
)
    requires
        shaped(s, n),
        0 <= k < n,
        s.at(k, k) != 0,
        reduced(s, k, n),
        undoes(f, s, target, n),
        forall|x: int|
            k <= x < s.n ==> is_i64(quot(#[trigger] s.at(x, k) as int, s.at(k, k) as int)),
        forall|x: int|
            k <= x < s.n ==> quot(#[trigger] s.at(x, k) as int, s.at(k, k) as int) * s.at(k, k)
                == s.at(x, k),
    ensures
        undoes(f_scale(f, k, s.at(k, k) as int), divided(s, k), target, n),
{
    let p = s.at(k, k) as int;
    let d = divided(s, k);
    let f2 = f_scale(f, k, p);
    assert forall|x: int, r: int| 0 <= x < n + n && 0 <= r < n implies #[trigger] sum(
        term(f2, d, x, r),
        n,
    ) == target.at(x, r) by {
        let h = term(f, s, x, r);
        let h2 = term(f2, d, x, r);
        assert forall|t: int| 0 <= t < n implies #[trigger] h2(t) == h(t) by {
            assert(h(t) == f(t, r) * s.at(x, t));
            assert(h2(t) == f2(t, r) * d.at(x, t));
            if t != k {
                assert(f2(t, r) == f(t, r));
                assert(d.at(x, t) == s.at(x, t));
            } else {
                let fk = f(k, r);
                assert(f2(t, r) == p * fk);
                if x >= k {
                    let q = quot(s.at(x, k) as int, p);
                    let v = s.at(x, k) as int;
                    assert(is_i64(q));
                    assert(d.at(x, k) == q);
                    assert(q * p == v);
                    assert(p * fk * q == fk * v) by (nonlinear_arith)
                        requires
                            q * p == v,
                    ;
                } else {
                    assert(s.at(x, k) == 0);
                    assert(d.at(x, k) == 0);
                    assert(p * fk * 0 == 0 && fk * 0 == 0) by (nonlinear_arith);
                }
            }
        }
        lemma_sum_ext(h2, h, n);
    }
}

proof fn lemma_clear_undoes(
    f: spec_fn(int, int) -> int,
    d: Grid<i64>,
    target: Grid<i64>,
    n: int,
    k: int,
)
    requires
        shaped(d, n),
        0 <= k < n,
        d.at(k, k) == 1,
        reduced(d, k, n),
        undoes(f, d, target, n),
        forall|x: int, y: int|
            k <= x < d.n && 0 <= y < d.m && y != k ==> {
                &&& is_i64(#[trigger] d.at(k, y) * #[trigger] d.at(x, k))
                &&& is_i64(d.at(x, y) - d.at(k, y) * d.at(x, k))
            },
    ensures
        undoes(f_clear(f, d, k, n), cleared(d, k), target, n),
{
    let c = cleared(d, k);
    let f2 = f_clear(f, d, k, n);
    assert forall|x: int, r: int| 0 <= x < n + n && 0 <= r < n implies #[trigger] sum(
        term(f2, c, x, r),
        n,
    ) == target.at(x, r) by {
        let h = term(f, d, x, r);
        let h2 = term(f2, c, x, r);
        let m = taken(f, d, k, r);
        let c0 = d.at(x, k) as int;
        let big_s = sum(m, n);
        assert forall|t: int| 0 <= t < n implies #[trigger] h2(t) == h(t) - c0 * m(t) + if t == k {
            big_s * c0
        } else {
            0
        } by {
            if t == k {
                let fk = f(k, r);
                assert((fk + big_s) * c0 == fk * c0 + big_s * c0) by (nonlinear_arith);
            } else {
                let (ft, a, v) = (f(t, r), d.at(x, t) as int, d.at(k, t) as int);
                if x < k {
                    assert(d.at(x, k) == 0);
                } else {
                    assert(is_i64(d.at(x, t) - d.at(k, t) * d.at(x, k)));
                }
                assert(c.at(x, t) == a - v * c0);
                assert(ft * (a - v * c0) == ft * a - c0 * (v * ft)) by (nonlinear_arith);
            }
        }
        lemma_sum_combine(h2, h, m, c0, k, big_s * c0, n);
    }
}

/// The companion of one elimination step.
pub open spec fn f_step(f: spec_fn(int, int) -> int, g: Grid<i64>, k: int, j: int, n: int) -> spec_fn(
    int,
    int,
) -> int {
    let s = swapped(g, k, j);
    f_clear(f_scale(f_swap(f, j, k), k, s.at(k, k) as int), divided(s, k), k, n)
}

/// Along the elimination from column `k`, the companion of the final matrix
/// still undoes it.
proof fn lemma_run_undoes(
    f: spec_fn(int, int) -> int,
    g: Grid<i64>,
    a: Grid<i64>,
    target: Grid<i64>,
    n: int,
    k: int,
) -> (ff: spec_fn(int, int) -> int)
    requires
        shaped(g, n),
        a.wf(),
        a.n == n,
        a.m == n,
        0 <= k <= n,
        combines(g, a, n),
        reduced(g, k, n),
        run_fits(g, k, n),
        run_exact(g, k, n),
        run_from(g, k, n) is Some,
        undoes(f, g, target, n),
    ensures
        undoes(ff, run_from(g, k, n)->0, target, n),
    decreases n - k,
{
    if k < n {
        lemma_pivot_row(g, k, k);
        let j = pivot_row(g, k, k)->0;
        lemma_swap_keeps(g, a, n, k, j);
        lemma_swap_undoes(f, g, target, n, k, j);
        let s = swapped(g, k, j);
        let f1 = f_swap(f, j, k);
        lemma_divide_keeps(s, a, n, k);
        lemma_divide_undoes(f1, s, target, n, k);
        let d = divided(s, k);
        let f2 = f_scale(f1, k, s.at(k, k) as int);
        lemma_clear_keeps(d, a, n, k);
        lemma_clear_undoes(f2, d, target, n, k);
        assert(f_clear(f2, d, k, n) == f_step(f, g, k, j, n));
        lemma_run_undoes(f_step(f, g, k, j, n), step(g, k, j), a, target, n, k + 1)
    } else {
        f
    }
}

proof fn lemma_dot_as_sum(u: Seq<i64>, v: Seq<i64>, k: int)
    ensures
        dot_upto(u, v, k) == sum(|t: int| u[t] * v[t], k),
    decreases k,
{
    if k > 0 {
        lemma_dot_as_sum(u, v, k - 1);
    }
}

/// When the elimination on the square matrix `a` finds an inverse, stays in
/// range and divides without remainder, the inverse it finds is also a right
/// inverse: `a * inverse` is the identity.
pub proof fn lemma_exact_inverse_is_right_inverse(a: Grid<i64>)
    requires
        a.wf(),
        a.n == a.m,
        inverse_fits(a),
        inverse_exact(a),
        inverse_of(a) is Some,
    ensures
        mat_mul(a, inverse_of(a)->0) == identity_of(a.n),
{
    let n = a.n as int;
    let g0 = augment(a);
    assert forall|x: int| 0 <= x < g0.n implies (#[trigger] g0.cols[x]).len() == g0.m by {
        if x >= n {
            assert(g0.cols[x] == identity_of(a.n).cols[x - n]);
        }
    }
    assert forall|x: int, y: int| 0 <= x < n && 0 <= y < n implies #[trigger] g0.at(x, y)
        == dot_of(coeffs(g0, n, y), a.cols[x]) by {
        assert forall|i: int| 0 <= i < n implies #[trigger] coeffs(g0, n, y)[i] == if i == y {
            1i64
        } else {
            0i64
        } by {
            assert(g0.cols[n + i] == identity_of(a.n).cols[i]);
        }
        lemma_dot_unit(coeffs(g0, n, y), a.cols[x], y, n);
    }
    let f0 = |t: int, r: int|
        if t == r {
            1int
        } else {
            0int
        };
    assert forall|x: int, r: int| 0 <= x < n + n && 0 <= r < n implies #[trigger] sum(
        term(f0, g0, x, r),
        n,
    ) == g0.at(x, r) by {
        lemma_sum_point(term(f0, g0, x, r), r, n);
    }
    let ff = lemma_run_undoes(f0, g0, a, g0, n, 0);
    lemma_run_keeps(g0, a, n, 0);
    let g = run_from(g0, 0, n)->0;
    let r = right_half(g, a.n);
    assert forall|t: int, y: int| 0 <= t < n && 0 <= y < n implies ff(t, y) == a.at(t, y) by {
        let h = term(ff, g, t, y);
        assert forall|t2: int| 0 <= t2 < n && t2 != t implies #[trigger] h(t2) == 0 by {
            assert(g.at(t, t2) == 0);
            assert(ff(t2, y) * 0 == 0) by (nonlinear_arith);
        }
        assert(g.at(t, t) == 1);
        assert(ff(t, y) * 1 == ff(t, y)) by (nonlinear_arith);
        lemma_sum_point(h, t, n);
        assert(sum(term(ff, g, t, y), n) == g0.at(t, y));
    }
    let p = mat_mul(a, r);
    assert forall|c: int, y: int| 0 <= c < n && 0 <= y < n implies p.at(c, y) == identity_of(
        a.n,
    ).at(c, y) by {
        assert(sum(term(ff, g, n + c, y), n) == g0.at(n + c, y));
        assert(g0.cols[n + c] == identity_of(a.n).cols[c]);
        lemma_dot_as_sum(a.row(y), r.cols[c], n);
        lemma_sum_ext(term(ff, g, n + c, y), |t: int| a.row(y)[t] * r.cols[c][t], n);
    }
    assert forall|x: int| 0 <= x < r.n implies (#[trigger] r.cols[x]).len() == r.m by {
        assert(r.cols[x] == g.cols[n + x]);
    }
    lemma_grid_ext(p, identity_of(a.n));
}

} // verus!

//! The unsigned permutation expansion that `Matrix::determinant` computes:
//! the sum, over every permutation `s` of the rows, of the products
//! `a[(i, s(i))]` over the columns `i`, with no sign attached to a permutation.
use vstd::prelude::*;

use crate::alg::arith::is_i64;
use crate::alg::grid::{identity_of, Grid};

verus! {

/// The expansion from column `i` on, the rows in `used` being taken by the
/// columns before `i`.
pub open spec fn expand_from(g: Grid<i64>, i: int, used: Set<int>) -> int
    decreases g.n - i, g.n + 1,
{
    if i >= g.n {
        1
    } else {
        expand_upto(g, i, used, g.n as int)
    }
}

/// The sum of the terms at column `i` for rows `0 .. k`, left to right.
pub open spec fn expand_upto(g: Grid<i64>, i: int, used: Set<int>, k: int) -> int
    decreases g.n - i, k,
{
    if k <= 0 || i >= g.n {
        0
    } else {
        expand_upto(g, i, used, k - 1) + if used.contains(k - 1) || i < 0 {
            0
        } else {
            g.at(i, k - 1) * expand_from(g, i + 1, used.insert(k - 1))
        }
    }
}

/// Every product and running sum of the expansion from column `i` on fits
/// in an `i64`.
pub open spec fn expand_fits(g: Grid<i64>, i: int, used: Set<int>) -> bool
    decreases g.n - i, g.n + 1,
{
    i >= g.n || expand_upto_fits(g, i, used, g.n as int)
}

/// Every product and running sum of the terms for rows `0 .. k` at column
/// `i` fits in an `i64`.
pub open spec fn expand_upto_fits(g: Grid<i64>, i: int, used: Set<int>, k: int) -> bool
    decreases g.n - i, k,
{
    if k <= 0 || i >= g.n || i < 0 {
        true
    } else {
        &&& expand_upto_fits(g, i, used, k - 1)
        &&& (!used.contains(k - 1) ==> {
            &&& expand_fits(g, i + 1, used.insert(k - 1))
            &&& is_i64(g.at(i, k - 1) * expand_from(g, i + 1, used.insert(k - 1)))
        })
        &&& is_i64(expand_upto(g, i, used, k))
    }
}

/// The running sums of an expansion that fits up to `k` fit up to any `j <= k`.
pub proof fn lemma_upto_fits_prefix(g: Grid<i64>, i: int, used: Set<int>, k: int, j: int)
    requires
        expand_upto_fits(g, i, used, k),
        0 <= j <= k,
    ensures
        expand_upto_fits(g, i, used, j),
    decreases k - j,
{
    if j < k {
        lemma_upto_fits_prefix(g, i, used, k - 1, j);
    }
}

/// The determinant as this library defines it: the expansion over all
/// permutations without signs for a square matrix, zero otherwise.
pub open spec fn det_of(g: Grid<i64>) -> int {
    if g.n != g.m {
        0
    } else {
        expand_from(g, 0, Set::empty())
    }
}

/// Computing `det_of(g)` stays in the `i64` range.
pub open spec fn det_fits(g: Grid<i64>) -> bool {
    g.n != g.m || expand_fits(g, 0, Set::empty())
}

/// The rows marked `true` in `used`.
pub open spec fn marked(used: Seq<bool>) -> Set<int> {
    Set::new(|j: int| 0 <= j < used.len() && used[j])
}

/// No row from `i` on is taken.
pub open spec fn free_from(n: int, i: int, used: Set<int>) -> bool {
    forall|c: int| i <= c < n ==> !used.contains(c)
}

/// On the identity, the expansion from column `i` is 1 when the rows from `i`
/// on are free and 0 otherwise, and it fits.
proof fn lemma_identity_expand(n: nat, i: int, used: Set<int>)
    requires
        0 <= i <= n,
    ensures
        expand_from(identity_of(n), i, used) == if free_from(n as int, i, used) {
            1int
        } else {
            0int
        },
        expand_fits(identity_of(n), i, used),
    decreases n - i, 1int,
{
    let g = identity_of(n);
    if i < n {
        lemma_identity_upto(n, i, used, n as int);
        if !used.contains(i) {
            lemma_identity_expand(n, i + 1, used.insert(i));
            if free_from(n as int, i + 1, used.insert(i)) {
                assert forall|c: int| i <= c < n implies !used.contains(c) by {
                    if c > i {
                        assert(!used.insert(i).contains(c));
                    }
                }
            } else {
                let c = choose|c: int| i + 1 <= c < n && used.insert(i).contains(c);
                assert(used.contains(c));
            }
        } else {
            assert(!free_from(n as int, i, used));
        }
    }
}

/// On the identity, only the term for row `i` at column `i` can be nonzero.
proof fn lemma_identity_upto(n: nat, i: int, used: Set<int>, k: int)
    requires
        0 <= i < n,
        0 <= k <= n,
    ensures
        expand_upto(identity_of(n), i, used, k) == if k > i && !used.contains(i) {
            expand_from(identity_of(n), i + 1, used.insert(i))
        } else {
            0int
        },
        0 <= expand_upto(identity_of(n), i, used, k) <= 1,
        expand_upto_fits(identity_of(n), i, used, k),
    decreases n - i, 0int, k,
{
    let g = identity_of(n);
    if k > 0 {
        lemma_identity_upto(n, i, used, k - 1);
        let j = k - 1;
        if !used.contains(j) {
            lemma_identity_expand(n, i + 1, used.insert(j));
            assert(g.at(i, j) == if i == j {
                1i64
            } else {
                0i64
            });
        }
    }
}

/// The identity matrix has determinant 1, and computing it stays in range.
pub proof fn lemma_identity_determinant(n: nat)
    ensures
        det_of(identity_of(n)) == 1,
        det_fits(identity_of(n)),
{
    lemma_identity_expand(n, 0, Set::empty());
}

} // verus!

//! Integer models shared by the vector and matrix operations.
use vstd::prelude::*;

verus! {

/// `v` is representable as an `i64`.
pub open spec fn is_i64(v: int) -> bool {
    i64::MIN <= v <= i64::MAX
}

/// Sum of the first `k` pairwise products of `a` and `b`, left to right.
pub open spec fn dot_upto(a: Seq<i64>, b: Seq<i64>, k: int) -> int
    decreases k,
{
    if k <= 0 {
        0
    } else {
        dot_upto(a, b, k - 1) + a[k - 1] * b[k - 1]
    }
}

/// The dot product of two sequences of equal length.
pub open spec fn dot_of(a: Seq<i64>, b: Seq<i64>) -> int {
    dot_upto(a, b, a.len() as int)
}

/// Every product and every running sum of the dot product of `a` and `b` fits
/// in an `i64`.
pub open spec fn dot_fits(a: Seq<i64>, b: Seq<i64>) -> bool {
    forall|k: int|
        0 < k <= a.len() ==> is_i64(a[k - 1] * b[k - 1]) && is_i64(#[trigger] dot_upto(a, b, k))
}

/// The dot product does not depend on the order of its two operands.
pub proof fn lemma_dot_upto_commutes(a: Seq<i64>, b: Seq<i64>, k: int)
    ensures
        dot_upto(a, b, k) == dot_upto(b, a, k),
    decreases k,
{
    if k > 0 {
        lemma_dot_upto_commutes(a, b, k - 1);
        assert(a[k - 1] * b[k - 1] == b[k - 1] * a[k - 1]) by (nonlinear_arith);
    }
}

/// Quotient of integer division rounded toward zero, as `/` computes it on
/// machine integers.
pub open spec fn quot(a: int, b: int) -> int {
    let q = if a >= 0 { a } else { -a };
    let d = if b >= 0 { b } else { -b };
    if (a >= 0) == (b > 0) || a == 0 {
        q / d
    } else {
        -(q / d)
    }
}

/// Divides `a` by `b`, rounding toward zero.
pub fn quot_i64(a: i64, b: i64) -> (r: i64)
    requires
        b != 0,
        is_i64(quot(a as int, b as int)),
    ensures
        r == quot(a as int, b as int),
{
    let q: i128 = if a >= 0 { a as i128 } else { -(a as i128) };
    let d: i128 = if b >= 0 { b as i128 } else { -(b as i128) };
    let t: i128 = q / d;
    if (a >= 0) == (b > 0) || a == 0 {
        t as i64
    } else {
        (-t) as i64
    }
}

} // verus!

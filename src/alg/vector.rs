//! Dense vectors.
use vstd::prelude::*;

use vstd::std_specs::iter::IteratorSpec;

use crate::alg::arith::{dot_fits, dot_of, dot_upto, is_i64, quot, quot_i64};
use crate::alg::grid::{lemma_grid_ext, Grid};
use crate::alg::matrix::Matrix;

verus! {

/// An `n`-dimensional vector: a fixed-length sequence of values.
#[derive(PartialEq, Debug)]
pub struct Vector<T> {
    data: Vec<T>,
}

impl<T> View for Vector<T> {
    type V = Seq<T>;

    closed spec fn view(&self) -> Seq<T> {
        self.data@
    }
}

impl<T> Vector<T> {
    /// Creates a vector of dimension `n` whose `i`-th value is `f(i)`.
    pub fn new<F: Fn(usize) -> T>(n: usize, f: F) -> (r: Self)
        requires
            forall|i: usize| i < n ==> f.requires((i,)),
        ensures
            r@.len() == n,
            forall|i: int| 0 <= i < n ==> f.ensures((i as usize,), #[trigger] r@[i]),
    {
        let mut data: Vec<T> = Vec::new();
        let mut i: usize = 0;
        while i < n
            invariant
                i <= n,
                data@.len() == i,
                forall|j: usize| j < n ==> f.requires((j,)),
                forall|j: int| 0 <= j < i ==> f.ensures((j as usize,), #[trigger] data@[j]),
            decreases n - i,
        {
            let v = f(i);
            data.push(v);
            i = i + 1;
        }
        Vector { data }
    }

    /// Returns the 0-dimensional vector.
    pub fn dummy() -> (r: Self)
        ensures
            r@ == Seq::<T>::empty(),
    {
        Vector { data: Vec::new() }
    }

    /// Creates a vector that takes over the given values.
    pub fn from_vec(data: Vec<T>) -> (r: Self)
        ensures
            r@ == data@,
    {
        Vector { data }
    }

    /// The dimension of the vector: the number of values.
    pub fn dim(&self) -> (r: usize)
        ensures
            r == self@.len(),
    {
        self.data.len()
    }

    /// Hands out the values, in order.
    pub fn into_iter(self) -> (r: std::vec::IntoIter<T>)
        ensures
            r.remaining() == self@,
    {
        self.data.into_iter()
    }

    /// The values, in order.
    pub fn data(&self) -> (r: &[T])
        ensures
            r@ == self@,
    {
        self.data.as_slice()
    }

    /// Gives back the values as a `Vec`.
    pub fn into_vec(self) -> (r: Vec<T>)
        ensures
            r@ == self@,
    {
        self.data
    }
}

impl<T: Copy> Vector<T> {
    /// Creates a vector of dimension `n` with every value equal to `model`.
    pub fn from_copies(n: usize, model: T) -> (r: Self)
        ensures
            r@ == Seq::new(n as nat, |i: int| model),
    {
        let mut data: Vec<T> = Vec::new();
        let mut i: usize = 0;
        while i < n
            invariant
                i <= n,
                data@ == Seq::new(i as nat, |j: int| model),
            decreases n - i,
        {
            data.push(model);
            i = i + 1;
            assert(data@ =~= Seq::new(i as nat, |j: int| model));
        }
        Vector { data }
    }

    /// Creates a vector holding a copy of the given values.
    pub fn from_slice(data: &[T]) -> (r: Self)
        ensures
            r@ == data@,
    {
        let mut out: Vec<T> = Vec::new();
        let mut i: usize = 0;
        while i < data.len()
            invariant
                i <= data@.len(),
                out@ == data@.subrange(0, i as int),
            decreases data@.len() - i,
        {
            out.push(data[i]);
            i = i + 1;
            assert(out@ =~= data@.subrange(0, i as int));
        }
        assert(out@ =~= data@);
        Vector { data: out }
    }

    /// The `i`-th value.
    pub fn get(&self, i: usize) -> (r: T)
        requires
            i < self@.len(),
        ensures
            r == self@[i as int],
    {
        self.data[i]
    }

    /// A copy of this vector.
    pub fn copy(&self) -> (r: Self)
        ensures
            r@ == self@,
    {
        Vector::from_slice(self.data.as_slice())
    }
}

impl<T> core::ops::Index<usize> for Vector<T> {
    type Output = T;

    /// The `index`-th value.
    fn index(&self, index: usize) -> (r: &T)
        ensures
            *r == self@[index as int],
    {
        &self.data[index]
    }
}

impl<T> vstd::std_specs::core::IndexSpecImpl<usize> for Vector<T> {
    open spec fn index_req(&self, index: &usize) -> bool {
        *index < self@.len()
    }
}

impl<T> From<Vec<T>> for Vector<T> {
    /// Creates a vector that takes over the given values.
    fn from(data: Vec<T>) -> (r: Self)
        ensures
            r@ == data@,
    {
        Vector { data }
    }
}

impl<T> vstd::std_specs::convert::FromSpecImpl<Vec<T>> for Vector<T> {
    open spec fn obeys_from_spec() -> bool {
        true
    }

    closed spec fn from_spec(v: Vec<T>) -> Vector<T> {
        Vector { data: v }
    }
}

impl<T: Copy> Clone for Vector<T> {
    fn clone(&self) -> (r: Self)
        ensures
            r@ == self@,
    {
        self.copy()
    }
}

impl Vector<i64> {
    /// The zero vector of dimension `n`.
    pub fn zero(n: usize) -> (r: Self)
        ensures
            r@ == Seq::new(n as nat, |i: int| 0i64),
    {
        Vector::from_copies(n, 0i64)
    }

    /// The dot product, summed left to right from zero.
    pub fn dot(&self, other: &Vector<i64>) -> (r: i64)
        requires
            self@.len() == other@.len(),
            dot_fits(self@, other@),
        ensures
            r == dot_of(self@, other@),
    {
        let n = self.data.len();
        let mut acc: i64 = 0;
        let mut i: usize = 0;
        while i < n
            invariant
                n == self@.len(),
                self@.len() == other@.len(),
                dot_fits(self@, other@),
                i <= n,
                acc == dot_upto(self@, other@, i as int),
            decreases n - i,
        {
            assert(dot_upto(self@, other@, i + 1) == dot_upto(self@, other@, i as int) + self@[i
                as int] * other@[i as int]);
            assert(is_i64(self@[i as int] * other@[i as int]) && is_i64(
                dot_upto(self@, other@, i + 1),
            ));
            let p = self.data[i] * other.data[i];
            acc = acc + p;
            i = i + 1;
        }
        acc
    }

    /// The squared norm: the dot product of the vector with itself.
    pub fn norm_sq(&self) -> (r: i64)
        requires
            dot_fits(self@, self@),
        ensures
            r == dot_of(self@, self@),
    {
        self.dot(self)
    }

    /// The outer product: the matrix of `other.dim()` columns and
    /// `self.dim()` rows whose value at `(x, y)` is `self[y] * other[x]`.
    pub fn outer_product(&self, other: &Vector<i64>) -> (r: Matrix<i64>)
        requires
            other@.len() * self@.len() <= usize::MAX,
            forall|x: int, y: int|
                0 <= x < other@.len() && 0 <= y < self@.len() ==> is_i64(
                    #[trigger] self@[y] * #[trigger] other@[x],
                ),
        ensures
            r.wf(),
            r@ == Grid::from_fn(
                other@.len(),
                self@.len(),
                |x: int, y: int| (self@[y] * other@[x]) as i64,
            ),
    {
        let a = Matrix::from_col(self);
        let b = Matrix::from_row(other);
        proof {
            assert forall|x: int, y: int| 0 <= x < b@.n && 0 <= y < a@.m implies dot_fits(
                #[trigger] a@.row(y),
                #[trigger] b@.cols[x],
            ) by {
                assert(a@.row(y) =~= seq![self@[y]]);
                assert(b@.cols[x] =~= seq![other@[x]]);
                assert(dot_upto(seq![self@[y]], seq![other@[x]], 0) == 0);
                assert(dot_upto(seq![self@[y]], seq![other@[x]], 1) == self@[y] * other@[x]);
            }
        }
        let r = a.mul(&b);
        proof {
            let g = Grid::from_fn(
                other@.len(),
                self@.len(),
                |x: int, y: int| (self@[y] * other@[x]) as i64,
            );
            assert forall|x: int, y: int| 0 <= x < g.n && 0 <= y < g.m implies r@.at(x, y) == g.at(
                x,
                y,
            ) by {
                assert(a@.row(y) =~= seq![self@[y]]);
                assert(b@.cols[x] =~= seq![other@[x]]);
                assert(dot_upto(seq![self@[y]], seq![other@[x]], 0) == 0);
                assert(dot_upto(seq![self@[y]], seq![other@[x]], 1) == self@[y] * other@[x]);
            }
            lemma_grid_ext(r@, g);
        }
        r
    }

    /// Adds `other` to this vector, value by value.
    pub fn add_in_place(&mut self, other: &Vector<i64>)
        requires
            old(self)@.len() == other@.len(),
            forall|i: int| 0 <= i < other@.len() ==> is_i64(old(self)@[i] + other@[i]),
        ensures
            final(self)@.len() == old(self)@.len(),
            forall|i: int|
                0 <= i < other@.len() ==> final(self)@[i] == old(self)@[i] + other@[i],
    {
        let n = self.data.len();
        let mut i: usize = 0;
        while i < n
            invariant
                n == self@.len(),
                n == other@.len(),
                i <= n,
                forall|j: int| 0 <= j < n ==> is_i64(old(self)@[j] + other@[j]),
                forall|j: int| 0 <= j < i ==> self@[j] == old(self)@[j] + other@[j],
                forall|j: int| i <= j < n ==> self@[j] == old(self)@[j],
            decreases n - i,
        {
            let v = self.data[i] + other.data[i];
            self.data[i] = v;
            i = i + 1;
        }
    }

    /// The entrywise sum of two vectors of equal dimension.
    pub fn add(&self, other: &Vector<i64>) -> (r: Vector<i64>)
        requires
            self@.len() == other@.len(),
            forall|i: int| 0 <= i < other@.len() ==> is_i64(self@[i] + other@[i]),
        ensures
            r@.len() == self@.len(),
            forall|i: int| 0 <= i < self@.len() ==> r@[i] == self@[i] + other@[i],
    {
        let mut r = self.copy();
        r.add_in_place(other);
        r
    }

    /// The entrywise difference of two vectors of equal dimension.
    pub fn sub(&self, other: &Vector<i64>) -> (r: Vector<i64>)
        requires
            self@.len() == other@.len(),
            forall|i: int| 0 <= i < other@.len() ==> is_i64(self@[i] - other@[i]),
        ensures
            r@.len() == self@.len(),
            forall|i: int| 0 <= i < self@.len() ==> r@[i] == self@[i] - other@[i],
    {
        let n = self.data.len();
        let mut data: Vec<i64> = Vec::new();
        let mut i: usize = 0;
        while i < n
            invariant
                n == self@.len(),
                n == other@.len(),
                i <= n,
                data@.len() == i,
                forall|j: int| 0 <= j < n ==> is_i64(self@[j] - other@[j]),
                forall|j: int| 0 <= j < i ==> data@[j] == self@[j] - other@[j],
            decreases n - i,
        {
            data.push(self.data[i] - other.data[i]);
            i = i + 1;
        }
        Vector { data }
    }

    /// Every value multiplied by `k`.
    pub fn mul_scalar(&self, k: i64) -> (r: Vector<i64>)
        requires
            forall|i: int| 0 <= i < self@.len() ==> is_i64(self@[i] * k),
        ensures
            r@.len() == self@.len(),
            forall|i: int| 0 <= i < self@.len() ==> r@[i] == self@[i] * k,
    {
        let n = self.data.len();
        let mut data: Vec<i64> = Vec::new();
        let mut i: usize = 0;
        while i < n
            invariant
                n == self@.len(),
                i <= n,
                data@.len() == i,
                forall|j: int| 0 <= j < n ==> is_i64(self@[j] * k),
                forall|j: int| 0 <= j < i ==> data@[j] == self@[j] * k,
            decreases n - i,
        {
            data.push(self.data[i] * k);
            i = i + 1;
        }
        Vector { data }
    }

    /// Every value divided by `k`, rounding toward zero.
    pub fn div_scalar(&self, k: i64) -> (r: Vector<i64>)
        requires
            k != 0,
            forall|i: int| 0 <= i < self@.len() ==> is_i64(quot(self@[i] as int, k as int)),
        ensures
            r@.len() == self@.len(),
            forall|i: int| 0 <= i < self@.len() ==> r@[i] == quot(self@[i] as int, k as int),
    {
        let n = self.data.len();
        let mut data: Vec<i64> = Vec::new();
        let mut i: usize = 0;
        while i < n
            invariant
                n == self@.len(),
                k != 0,
                i <= n,
                data@.len() == i,
                forall|j: int| 0 <= j < n ==> is_i64(quot(self@[j] as int, k as int)),
                forall|j: int| 0 <= j < i ==> data@[j] == quot(self@[j] as int, k as int),
            decreases n - i,
        {
            data.push(quot_i64(self.data[i], k));
            i = i + 1;
        }
        Vector { data }
    }
}

} // verus!

//! Dense linear algebra over vectors and matrices, with machine-checked
//! contracts on every operation.
//!
//! The generic containers hold any `Copy` element; the arithmetic is given for
//! `i64` elements, with every intermediate value proved to stay in range.
pub mod alg;
pub mod matrix;
pub mod ml;

//! Vectors and column-major matrices.
pub mod arith;
pub mod exact_inverse;
pub mod gauss;
pub mod grid;
pub mod matrix;
pub mod permanent;
pub mod vector;

pub use self::matrix::Matrix;
pub use self::vector::Vector;

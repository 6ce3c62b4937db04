//! A small linear-algebra library over an exact rational scalar type:
//! fixed-shape vectors and matrices with element-wise arithmetic, dot
//! products, norms, and matrix decompositions (reduced row-echelon form,
//! determinant, inverse, rank), all with verified contracts.

pub mod determinant;
pub mod echelon;
pub mod inverse;
pub mod laws;
pub mod matrix;
pub mod operations;
pub mod rational;
pub mod vector;

pub use crate::inverse::MatrixError;
pub use crate::matrix::Matrix;
pub use crate::operations::cross_product;
pub use crate::operations::lerp;
pub use crate::operations::linear_combination;
pub use crate::rational::Rational;
pub use crate::vector::Vector;

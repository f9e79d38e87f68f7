//! Prime-field scalar arithmetic and dense univariate polynomials over it.
pub mod algebra;
pub mod univariate;

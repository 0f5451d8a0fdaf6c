//! Polynomial algebra and root finding over complex coefficients.
//!
//! Polynomials are ordered coefficient sequences (index `i` is the
//! coefficient of `x^i`). The library verifies the structural algebra:
//! the normalization invariant, degree bookkeeping, synthetic division,
//! companion-matrix construction and the hybrid root-finding strategy.
//! The complex scalar itself is `num_complex::Complex64`, kept opaque and
//! reached only through a small trusted layer in `cnum`.

pub mod cnum;
pub mod cmat;
pub mod poly;
pub mod roots;

pub use cmat::CMatrix;
pub use poly::Poly;
pub use roots::AllRootsAlgorithms;
pub use roots::OneRootAlgorithms;

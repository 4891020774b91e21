//! Multilinear polynomials given by their values on the hypercube, and the
//! translation of values into coefficients.
pub use crate::polynomials::{mobius_inversion, LagrangePolynomial};

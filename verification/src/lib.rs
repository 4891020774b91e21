//! Verified building blocks of a sumcheck-based SNARK over the Goldilocks field.
pub mod bits;
pub mod coefficients;
pub mod completeness;
pub mod constraints;
pub mod diagonal;
pub mod expr;
pub mod fake_field;
pub mod field;
pub mod fields;
pub mod folding;
pub mod hash;
pub mod honest_prover;
pub mod identities;
pub mod hypercube;
pub mod lagrange;
pub mod matrix_ext;
pub mod merkle_tree;
pub mod mle;
pub mod modular;
pub mod partial_sums;
pub mod soundness;
pub mod polynomials;
pub mod text;
pub mod transcript;
pub mod vertices;

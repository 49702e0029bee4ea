//! Field arithmetic, polynomials, evaluation domains, FRI folding and the
//! STARK prover and verifier.

pub mod composition;
pub mod domain;
pub mod field;
pub mod fri;
pub mod polynomial;
pub mod stark;
pub mod transform;

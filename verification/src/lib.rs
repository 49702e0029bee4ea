//! Toyni: a small STARK proving engine over the BLS12-381 scalar field.
//!
//! The crate holds the polynomial algebra, the execution trace and its
//! constraint system, the FRI folding step, a SHA-256 Merkle tree, and the
//! prover and verifier that tie them together.  Every function carries a
//! contract over mathematical models of the data it works on; the field
//! arithmetic, the number-theoretic transform, the hash function and the
//! random number generator are taken from other crates and stated, not proved.
//!
//! # Warning
//! This is a teaching implementation.  It is not zero-knowledge and has not
//! been audited.

pub mod errors;
pub mod math;
pub mod merkle;
pub mod vm;

//! The ways in which an operation of this crate can fail.

use vstd::prelude::*;

verus! {

/// Why an operation was refused.
#[derive(Clone, Copy, Debug, PartialEq, Eq, Structural)]
pub enum StarkError {
    /// A domain size that is not a power of two, or one with more points than
    /// the field has roots of unity for, or a domain smaller than the trace
    /// it is used for.
    UnsupportedDomainSize,
    /// A row whose number of keys differs from the width of the trace.
    WidthMismatch,
    /// A row inserted into a trace that already holds all of its rows.
    TraceFull,
    /// A row index outside the trace, a boundary constraint about such a
    /// row, or a read of a trace that is not complete yet.
    OutOfRange,
    /// A vector of odd length handed to the FRI fold.
    OddLength,
    /// A division by the zero polynomial.
    DivideByZero,
    /// A Merkle opening asked for a leaf that the tree does not have.
    IndexOutOfRange,
    /// A consistency or folding check of the verifier that did not hold.
    VerificationFailed,
}

} // verus!

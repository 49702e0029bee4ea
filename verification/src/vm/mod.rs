//! The execution trace of a state machine and the constraints laid on it.

pub mod constraints;
pub mod trace;

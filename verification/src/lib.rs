//! An interactive-calculator core: an expression interpreter over a two-kind
//! value domain (scalar, matrix) and the matrix-algebra kernel it calls into.
//!
//! Scalars are exact fractions of machine integers rather than floating-point
//! numbers, so every arithmetic step either returns the exact rational result
//! or reports an overflow; no precision is lost anywhere in the kernel.

pub mod errors;
pub mod exp_interpreter;
pub mod math;
pub mod matrix;
pub mod rat;

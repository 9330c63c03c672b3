//! Exact integer (fixed-point) signal-processing toolkit: test-signal
//! generators, difference-equation and convolution filters, framing and
//! windowing for short-time analysis, and the index and complex-arithmetic
//! parts of a radix-2 transform.
use vstd::prelude::*;

pub mod filter;
pub mod framing;
pub mod signal;
pub mod spectrum;

verus! {

/// How a sequence of samples is drawn when it is plotted.
#[non_exhaustive]
pub enum Shape {
    Line,
    Points,
}

/// Why an operation of the toolkit refused its input.
#[derive(Debug, Clone, Copy, PartialEq, Eq, Structural)]
pub enum DspError {
    /// A filter was given no feedforward coefficients.
    EmptyCoefficients,
    /// A filter was given an empty input buffer.
    EmptySignal,
    /// Two buffers that must have the same length do not.
    LengthMismatch,
    /// A result does not fit in the integer type that holds it.
    Overflow,
    /// The fast transform was asked for a length that is not a power of two.
    NotPowerOfTwo,
    /// A series truncation order exceeds the coefficients available.
    OrderTooLarge,
}

} // verus!

//! The closed set of failure reasons shared by the interval engines.

use vstd::prelude::*;
use crate::fixed::Fixed;

verus! {

/// Names the quantity whose conversion into the fixed-point computation
/// domain failed (the value would not fit in the representation).
#[derive(Clone, Copy, Debug, PartialEq, Eq, Structural)]
pub enum ConversionContext {
    /// The running sum of squared (transformed) sample values.
    SumOfSquares,
    /// The square of the running sum of (transformed) sample values.
    SquareOfSum,
    /// A bound of the interval, after the inverse transform.
    Bound,
    /// An intermediate product or quotient of the proportion formula.
    Proportion,
}

/// A failure of one of the interval engines. Every value is recoverable
/// and returned to the caller; the engines never panic.
#[derive(Clone, Copy, Debug, PartialEq, Eq, Structural)]
pub enum CIError {
    /// A sample element failed the validity predicate of the requested
    /// mean kind (for instance, a non-positive value for the geometric or
    /// harmonic mean).
    InvalidInputData,
    /// Fewer than two valid observations: no variance estimate is
    /// possible. Carries the observed count.
    TooFewSamples(usize),
    /// The number of successes exceeds the population size. Carries
    /// (successes, population).
    InvalidSuccesses(usize, usize),
    /// The confidence level is not strictly between zero and one.
    /// Carries the offending level.
    InvalidConfidenceLevel(Fixed),
    /// Too few successes for the requested proportion method. Carries
    /// (successes, population, threshold-relevant quantity).
    TooFewSuccesses(usize, usize, Fixed),
    /// Too few failures for the requested proportion method. Carries
    /// (failures, population, threshold-relevant quantity).
    TooFewFailures(usize, usize, Fixed),
    /// A quantity could not be represented in the fixed-point computation
    /// domain. Carries the name of the quantity.
    FloatConversionError(ConversionContext),
}

/// The result type shared by the interval engines.
pub type CIResult<T> = Result<T, CIError>;

} // verus!

//! Confidence intervals for means, proportions, and quantiles.
//!
//! All interval arithmetic is carried out in a fixed-point representation
//! ([`Fixed`], a signed 64-bit count of billionths), so that every step of
//! each computation is exact integer arithmetic with a verified contract.
//! Critical values of the normal and Student's-t distributions are external
//! inputs: callers obtain them from a distribution provider and pass them in
//! as [`Fixed`] multipliers.

pub mod confidence;
pub mod error;
pub mod fixed;
pub mod interval;
pub mod mean;
pub mod proportion;
pub mod quantile;

pub use confidence::Confidence;
pub use fixed::Fixed;
pub use interval::Interval;

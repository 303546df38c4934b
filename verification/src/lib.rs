//! Empirical distribution functions and the two-sample
//! Kolmogorov-Smirnov test over totally ordered samples.
//!
//! Every number between 0 and 1 that the library returns is an exact
//! fraction: see `ratio::Ratio`.

pub mod ecdf;
pub mod order;
pub mod ratio;
pub mod sample;
mod slices;
pub mod statistic;
mod sweep;
pub mod test;

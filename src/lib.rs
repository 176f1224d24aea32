//! Bit-packed dataset construction for gradient-boosted trees: an arena of
//! bit blocks, approximate quantile binning, row and feature sampling, and the
//! per-feature bitsets that make split tests single bit lookups.
//!
//! Numbers (feature values, targets, gradients) are fixed-point `i64`
//! values with `data::FIXED_ONE` units per whole number; fractions of the
//! configuration are parts per million.
pub mod store;
pub mod bitsets;
pub mod sampling;
pub mod binner;
pub mod quantile;
pub mod data;
pub mod preprocess;
pub mod dataset;

//! A mutable, ordered container of `i64` samples that keeps running
//! aggregates — count, sum, sum of squares, minimum and maximum — consistent
//! with the backing sequence across arbitrary structural mutation, so that
//! aggregate queries cost O(1) instead of a full scan.
//!
//! The cache-maintenance invariant, including the conditional linear rescan
//! that repairs the minimum and maximum after the cached extremum is removed,
//! is stated in the contracts of [`fstats::Stats`] and proved. The
//! [`stats`] module holds the batch oracle: stateless one-pass functions over
//! a fixed sequence that the container's cached answers provably agree with.

pub mod aggregates;
pub mod arith;
pub mod fstats;
pub mod laws;
pub mod stats;

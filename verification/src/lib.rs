//! Trust propagation over a transaction graph, with topic decay aggregation.
//!
//! The crate computes a reputation ("trust") score for addresses in a
//! transaction graph and then attributes that trust to topics those addresses
//! have engaged with, decayed by recency. The pipeline is:
//!
//! 1. depth-bounded neighborhood discovery around a seed address,
//! 2. construction of a row-normalized local trust matrix over that
//!    neighborhood,
//! 3. a fixed number of power-iteration rounds blending propagated trust with
//!    a pre-trust vector,
//! 4. aggregation of exponentially decayed, trust-weighted topic scores.
//!
//! All scores, matrix entries and rates are fixed-point fractions: a value `v`
//! stands for the real number `v / SCALE`. Fixed-point arithmetic keeps every
//! step in exact integer arithmetic, so results are fully determined by the
//! inputs and every bound proved here is exact.
use vstd::prelude::*;

pub mod errors;
pub mod explore;
pub mod fixed;
pub mod matrix;
pub mod pipeline;
pub mod propagate;
pub mod storage;
pub mod topics;
pub mod trust;

verus! {

/// Scale of the fixed-point representation: the stored integer `v` denotes
/// the fraction `v / SCALE`, so `SCALE` itself denotes `1.0`.
pub const SCALE: u64 = 1_000_000_000;

/// Highest recursion level of the neighborhood search that still expands:
/// a search entered above this level discovers nothing.
pub const LIMIT: u8 = 2;

/// Number of propagation rounds of the power iteration.
pub const NUM_ITER: usize = 30;

/// Weight of the pre-trust vector in each propagation round: `0.2` in
/// fixed point.
pub const PRE_TRUST_WEIGHT: u64 = 200_000_000;

/// Hourly decay rate of topic engagements: `0.7` in fixed point.
pub const TIME_DECAY_RATE: u64 = 700_000_000;

} // verus!

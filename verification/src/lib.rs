//! A fixed-memory histogram for `u64` samples with logarithmic buckets and
//! linear sub-buckets.
use vstd::prelude::*;

pub mod buckets;
pub mod ccdf;
pub mod histogram;
pub mod laws;
pub mod quantile;
pub mod render;

pub use ccdf::Probability;
pub use histogram::{Grid, HDRHist};
pub use quantile::Quantile;

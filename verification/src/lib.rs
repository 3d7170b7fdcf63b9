//! Monte Carlo estimation of how many slots are occupied at once, given an
//! empirical table of tenancy lengths.
//!
//! Every quantity the library computes is an integer or a ratio of two
//! integers, so each result is exact and each contract speaks of plain
//! arithmetic.

pub mod ratio;
pub mod histogram;
pub mod simulator;
pub mod sampler;
pub mod engine;
pub mod table;

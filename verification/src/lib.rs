//! Detection and execution engine for triangular / multi-leg arbitrage on a
//! centralized spot exchange.
//!
//! All monetary magnitudes (prices, quantities, rates, budgets) are decimal
//! fixed-point values: a `u64` holding the magnitude times [`fixed::SCALE`]
//! (10^8).  Edge weights of the rate graph are `-log10(rate)` in the same
//! fixed-point scale, carried as `i64`.

pub mod bellmanford;
pub mod csvio;
pub mod decimal;
pub mod depth;
pub mod executor;
pub mod fixed;
pub mod jsonio;
pub mod logfp;
pub mod models;
pub mod normalize;
pub mod rates;
pub mod signing;
pub mod stream;
pub mod strutil;

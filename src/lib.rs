//! Funding-rate arbitrage: merging per-venue funding snapshots, pairing venues
//! that list the same currency, and ranking the pairs by annualized yield.
pub mod decimal;
pub mod model;
pub mod candidate;
pub mod aggregate;
pub mod store;
pub mod render;
pub mod venues;
pub mod laws;

//! Monte Carlo valuation of European and American options on simulated
//! price paths.
//!
//! Every amount is held in fixed point: an `i64` counts millionths of a
//! unit, so a price of 100 is `100_000_000`, a volatility of 0.15 is
//! `150_000` and a standard normal shock of -1.5 is `-1_500_000`. Products
//! are rounded toward zero, and an amount that leaves the range of an `i64`
//! is reported as `PricingError::Overflow`.
//!
//! The random shocks and the regression estimates come from the caller: the
//! library lays the shocks out, scales and compounds them into price paths,
//! and values the option on those paths.
//!
//! The first column of a grid of price paths holds the prices one step after
//! the valuation date, and each later column those one step later.

pub mod american;
pub mod error;
pub mod european;
pub mod fixed;
pub mod grid;
pub mod laws;
pub mod payoff;
pub mod pricing;
pub mod regression;
pub mod utils;

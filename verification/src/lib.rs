//! A verified market-clearing engine for a bilateral two-good commodity
//! market: agents with linear utilities trade pairwise, each round executing
//! the single bid/ask pair with the largest price spread, until no mutually
//! beneficial trade remains.
//!
//! All quantities and prices are exact non-negative rationals (`rat::Ratio`),
//! so the economic invariants (strict utility surplus for both parties, no
//! negative balances, termination, and the terminal three-segment partition)
//! are proved rather than checked at run time.

pub mod driver;
pub mod laws;
pub mod market;
pub mod measure;
pub mod rat;

//! Invariant-checking core of a multi-asset liquidity pool.
//!
//! Given per-asset balances, issued claim-token amounts and reference prices,
//! the library computes value-weighted portfolio weights, aggregate pool and
//! claim values, and per-asset imbalance ratios, and decides whether a
//! proposed swap moves every imbalance ratio by no more than a tolerance.
//! All arithmetic is exact: quantities are integers, weights and ratios are
//! rational numbers held as numerator/denominator pairs, and the tolerance
//! comparison is done by cross-multiplication.

pub mod arith;
pub mod model;
pub mod pool;
pub mod laws;

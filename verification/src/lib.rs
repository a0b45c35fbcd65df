pub mod config;
pub mod matcher;
pub mod order;
pub mod orderbook;
pub mod registry;
pub mod trade;
pub mod wire;

use vstd::prelude::*;

verus! {

/// Number of price units that make up one whole unit of quote currency.
/// Prices are fixed-point values in `[0, PRICE_ONE]`; a price `p` stands for
/// the exact decimal `p / PRICE_ONE`.
pub const PRICE_ONE: u64 = 1_000_000;

} // verus!

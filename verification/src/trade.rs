//! Execution records: secondary trades and complementary (mint-pair) matches.

use vstd::prelude::*;

verus! {

use crate::PRICE_ONE;
use crate::order::{OrderSide, Outcome};

#[derive(Debug, Clone, Copy, PartialEq, Eq, Structural)]
pub enum TradeType {
    SECONDARY,
    COMPLEMENTARY,
}

impl TradeType {
    pub open spec fn spec_determine(
        buyer_side: OrderSide,
        buyer_outcome: Outcome,
        seller_side: OrderSide,
        seller_outcome: Outcome,
    ) -> TradeType {
        if buyer_outcome != seller_outcome {
            TradeType::COMPLEMENTARY
        } else {
            TradeType::SECONDARY
        }
    }

    /// Classify an execution from the two parties' outcomes: a pairing
    /// across opposite outcomes is complementary (it mints a share pair);
    /// one within a single outcome transfers existing shares.
    pub fn determine(
        buyer_side: OrderSide,
        buyer_outcome: Outcome,
        seller_side: OrderSide,
        seller_outcome: Outcome,
    ) -> (r: TradeType)
        ensures
            r == Self::spec_determine(buyer_side, buyer_outcome, seller_side, seller_outcome),
    {
        match (buyer_outcome, seller_outcome) {
            (Outcome::YES, Outcome::NO) => TradeType::COMPLEMENTARY,
            (Outcome::NO, Outcome::YES) => TradeType::COMPLEMENTARY,
            _ => TradeType::SECONDARY,
        }
    }
}

/// A secondary execution: existing shares of one outcome move from the
/// seller to the buyer at a single price.
#[derive(Debug)]
pub struct Trade {
    pub trade_id: u128,
    pub market_id: String,
    pub outcome: Outcome,
    pub trade_type: TradeType,
    pub buyer_id: String,
    pub seller_id: String,
    pub quantity: u64,
    pub price: u64,
    pub buyer_order_id: u128,
    pub seller_order_id: u128,
    pub buyer_reservation_id: Option<String>,
    pub seller_reservation_id: Option<String>,
    pub timestamp: i64,
}

impl Trade {
    /// A well-formed trade: positive quantity, price within `[0, PRICE_ONE]`,
    /// and distinct parties.
    pub open spec fn wf(self) -> bool {
        &&& self.quantity > 0
        &&& self.price <= PRICE_ONE
        &&& self.buyer_id@ != self.seller_id@
    }
}

/// A mint-pair execution: a YES buyer and a NO buyer whose limit prices sum
/// to at least one whole unit; one share pair is minted per quantity unit.
#[derive(Debug)]
pub struct ComplementaryMatch {
    pub trade_id: u128,
    pub market_id: String,
    pub yes_buyer_id: String,
    pub no_buyer_id: String,
    pub quantity: u64,
    pub yes_price: u64,
    pub no_price: u64,
    pub yes_order_id: u128,
    pub no_order_id: u128,
    pub yes_reservation_id: Option<String>,
    pub no_reservation_id: Option<String>,
    pub timestamp: i64,
}

impl ComplementaryMatch {
    /// A well-formed match: positive quantity, prices within range, the two
    /// limit prices cover the collateral of one pair, distinct parties.
    pub open spec fn wf(self) -> bool {
        &&& self.quantity > 0
        &&& self.yes_price <= PRICE_ONE
        &&& self.no_price <= PRICE_ONE
        &&& self.yes_price + self.no_price >= PRICE_ONE
        &&& self.yes_buyer_id@ != self.no_buyer_id@
    }

    /// Collateral needed to mint the matched pairs: one unit of quote per
    /// share pair, so exactly the matched quantity.
    pub fn collateral_required(&self) -> (r: u64)
        ensures
            r == self.quantity,
    {
        self.quantity
    }
}

} // verus!

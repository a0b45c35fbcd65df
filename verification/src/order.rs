//! Order records and the closed enums that classify them.

use vstd::prelude::*;

verus! {

use crate::PRICE_ONE;

#[derive(Debug, Clone, Copy, PartialEq, Eq, Structural)]
pub enum OrderSide {
    BUY,
    SELL,
}

#[derive(Debug, Clone, Copy, PartialEq, Eq, Structural)]
pub enum Outcome {
    YES,
    NO,
}

impl Outcome {
    /// The complementary outcome: YES pairs with NO and NO with YES.
    pub fn opposite(self) -> (r: Outcome)
        ensures
            r == self.spec_opposite(),
    {
        match self {
            Outcome::YES => Outcome::NO,
            Outcome::NO => Outcome::YES,
        }
    }

    pub open spec fn spec_opposite(self) -> Outcome {
        match self {
            Outcome::YES => Outcome::NO,
            Outcome::NO => Outcome::YES,
        }
    }
}

#[derive(Debug, Clone, Copy, PartialEq, Eq, Structural)]
pub enum OrderType {
    LIMIT,
    MARKET,
    POSTONLY,
}

#[derive(Debug, Clone, Copy, PartialEq, Eq, Structural)]
pub enum OrderStatus {
    PENDING,
    OPEN,
    PARTIAL,
    FILLED,
    CANCELLED,
}

/// An order as the matching core sees it.
///
/// Prices are fixed-point units in `[0, PRICE_ONE]`; quantities are positive
/// fixed-point units in the same base. Ids are 128-bit opaque identifiers.
#[derive(Debug)]
pub struct Order {
    pub order_id: u128,
    pub user_id: String,
    pub market_id: String,
    pub side: OrderSide,
    pub outcome: Outcome,
    pub order_type: OrderType,
    pub price: u64,
    pub quantity: u64,
    pub filled: u64,
    pub order_status: OrderStatus,
    pub reservation_id: Option<String>,
    pub created_at: i64,
}

impl Clone for Order {
    fn clone(&self) -> (res: Order)
        ensures
            res == *self,
    {
        Order {
            order_id: self.order_id,
            user_id: self.user_id.clone(),
            market_id: self.market_id.clone(),
            side: self.side,
            outcome: self.outcome,
            order_type: self.order_type,
            price: self.price,
            quantity: self.quantity,
            filled: self.filled,
            order_status: self.order_status,
            reservation_id: match &self.reservation_id {
                Some(s) => Some(s.clone()),
                None => None,
            },
            created_at: self.created_at,
        }
    }
}

impl Order {
    /// A well-formed order: the price lies in `[0, PRICE_ONE]` and the filled
    /// amount never exceeds the ordered quantity.
    pub open spec fn wf(self) -> bool {
        &&& self.price <= PRICE_ONE
        &&& self.filled <= self.quantity
    }

    pub open spec fn spec_remaining(self) -> int {
        self.quantity - self.filled
    }

    /// Quantity still unfilled.
    pub fn remaining(&self) -> (r: u64)
        requires
            self.filled <= self.quantity,
        ensures
            r == self.spec_remaining(),
    {
        self.quantity - self.filled
    }

    /// Whether the order is completely filled.
    pub fn is_filled(&self) -> (r: bool)
        ensures
            r == (self.filled >= self.quantity),
    {
        self.filled >= self.quantity
    }
}

} // verus!

//! Orders, trades and errors of the matching engine.

use vstd::prelude::*;

use crate::decimal::Decimal;

verus! {

/// Which side of the book an order rests on.
#[derive(Debug, Clone, Copy, PartialEq, Eq, Structural)]
pub enum Side {
    Buy,
    Sell,
}

/// A limit order. `remaining` starts at `amount` and shrinks as the order fills.
#[derive(Debug)]
pub struct Order {
    pub id: u64,
    pub user_id: u64,
    pub symbol: String,
    pub side: Side,
    pub price: Decimal,
    pub amount: Decimal,
    pub remaining: Decimal,
}

/// One fill between a resting maker order and an incoming taker order.
#[derive(Debug)]
pub struct Trade {
    pub maker_order_id: u64,
    pub taker_order_id: u64,
    pub symbol: String,
    pub price: Decimal,
    pub amount: Decimal,
}

/// Why the engine refused an order or a cancellation.
#[derive(Debug, PartialEq, Eq)]
pub enum EngineError {
    InvalidPrice(Decimal),
    InvalidAmount(Decimal),
    DuplicateOrderId(u64),
    OrderNotFound(u64),
}

impl Order {
    /// Decimals of the order are in `rust_decimal`'s range.
    pub open spec fn wf(self) -> bool {
        self.price.wf() && self.amount.wf() && self.remaining.wf()
    }

    /// A fresh order: nothing filled yet.
    pub fn new(id: u64, user_id: u64, symbol: &str, side: Side, price: Decimal, amount: Decimal) -> (r: Order)
        ensures
            r.id == id,
            r.user_id == user_id,
            r.symbol@ == symbol@,
            r.side == side,
            r.price == price,
            r.amount == amount,
            r.remaining == amount,
    {
        Order { id, user_id, symbol: symbol.to_owned(), side, price, amount, remaining: amount }
    }

    /// Whether nothing is left to fill (`remaining <= 0`).
    pub fn is_filled(&self) -> (r: bool)
        ensures
            r == (self.remaining.units() <= 0),
    {
        proof {
            crate::decimal::lemma_zero_units(self.remaining);
        }
        self.remaining.mantissa <= 0
    }

    /// A field-by-field copy.
    pub fn duplicate(&self) -> (r: Order)
        ensures
            r == *self,
    {
        Order {
            id: self.id,
            user_id: self.user_id,
            symbol: self.symbol.clone(),
            side: self.side,
            price: self.price,
            amount: self.amount,
            remaining: self.remaining,
        }
    }
}

impl Clone for Order {
    fn clone(&self) -> (r: Order)
        ensures
            r == *self,
    {
        self.duplicate()
    }
}

impl Clone for Trade {
    fn clone(&self) -> (r: Trade)
        ensures
            r == *self,
    {
        Trade {
            maker_order_id: self.maker_order_id,
            taker_order_id: self.taker_order_id,
            symbol: self.symbol.clone(),
            price: self.price,
            amount: self.amount,
        }
    }
}

} // verus!

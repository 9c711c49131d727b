use vstd::prelude::*;

use crate::domain::OrderSide;

verus! {

/// One match between a resting (maker) order and an incoming (taker) order,
/// at the maker's price.
#[derive(PartialEq, Eq, Structural, Debug, Copy, Clone)]
pub struct Trade {
    pub maker_id: u128,
    pub taker_id: u128,
    /// The sequence number the maker rested with.
    pub maker_sequence: u64,
    /// The side of the incoming order.
    pub taker_side: OrderSide,
    pub price: u64,
    pub qty: u64,
    pub timestamp: u64,
}

/// What became of the part of an order that found no match.
#[derive(PartialEq, Eq, Structural, Debug, Copy, Clone)]
pub enum Remainder {
    /// It rests in the book at this price with this sequence number.
    Resting { price: u64, sequence: u64 },
    /// It was dropped: a market order never rests.
    Cancelled,
}

/// Why an order was refused before any matching.
#[derive(PartialEq, Eq, Structural, Debug, Copy, Clone)]
pub enum RejectReason {
    /// The quantity is zero.
    ZeroQuantity,
    /// A limit order without a price, or a market order with one.
    PriceMismatch,
    /// The order is for another pair than the book's.
    WrongPair,
    /// An order with the same id already rests in the book.
    DuplicateId,
    /// The book has handed out its last sequence number.
    SequenceExhausted,
}

#[derive(PartialEq, Eq, Structural, Debug, Copy, Clone)]
pub enum Success {
    /// A match; one of these comes for each fill.
    Trade(Trade),
    /// Nothing matched and the whole order rests.
    Accepted { order_id: u128, price: u64, qty: u64, sequence: u64 },
    /// Part of the order matched; `remainder` says where the rest went.
    PartiallyFilled { order_id: u128, filled_qty: u64, remaining_qty: u64, remainder: Remainder },
    /// The whole order matched.
    Filled { order_id: u128, qty: u64 },
}

#[derive(PartialEq, Eq, Structural, Debug, Copy, Clone)]
pub enum Failed {
    /// A market order found nothing to match at all.
    NoLiquidity { order_id: u128, qty: u64 },
    /// No resting order has this id.
    OrderNotFound { order_id: u128 },
    /// The order was refused before matching.
    ValidationError { order_id: u128, reason: RejectReason },
}

/// One entry of the trace that processing an order produces.
pub type OrderResult = Result<Success, Failed>;

} // verus!

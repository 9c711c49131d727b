use vstd::prelude::*;

use crate::asset::BrokerAsset;
use crate::text::{lower_of, to_lower};

verus! {

/// The side of the book an order belongs to.
#[derive(PartialEq, Eq, Structural, Debug, Copy, Clone)]
pub enum OrderSide {
    Bid,
    Ask,
}

/// A side string that is neither "bid" nor "ask".
#[derive(PartialEq, Eq, Structural, Debug, Copy, Clone)]
pub struct InvalidSideError;

/// A limit order names its worst acceptable price; a market order takes any.
#[derive(PartialEq, Eq, Structural, Debug, Copy, Clone)]
pub enum OrderType {
    Market,
    Limit,
}

/// An order of `qty` units of `order_asset`, priced in `price_asset`.
///
/// Prices and quantities are exact decimals held as whole numbers of
/// hundred-millionths (see `crate::decimal`).
#[derive(PartialEq, Eq, Structural, Debug, Copy, Clone)]
pub struct Order {
    pub order_id: u128,
    pub order_asset: BrokerAsset,
    pub price_asset: BrokerAsset,
    pub side: OrderSide,
    pub order_type: OrderType,
    /// The limit price; present exactly for limit orders.
    pub price: Option<u64>,
    /// The quantity not yet matched.
    pub qty: u64,
    /// Position in the book's insertion order, assigned when the order rests.
    pub sequence: u64,
    /// Submission time, in milliseconds.
    pub timestamp: u64,
}

impl OrderSide {
    pub open spec fn spec_from_word(s: Seq<char>) -> Option<OrderSide> {
        if s == "bid"@ {
            Some(OrderSide::Bid)
        } else if s == "ask"@ {
            Some(OrderSide::Ask)
        } else {
            None
        }
    }

    pub open spec fn word(self) -> Seq<char> {
        match self {
            OrderSide::Bid => "bid"@,
            OrderSide::Ask => "ask"@,
        }
    }

    pub open spec fn spec_opposite(self) -> OrderSide {
        match self {
            OrderSide::Bid => OrderSide::Ask,
            OrderSide::Ask => OrderSide::Bid,
        }
    }

    /// Reads an already lower-cased side word.
    pub fn from_lower(lower: &str) -> (r: Result<OrderSide, InvalidSideError>)
        ensures
            match Self::spec_from_word(lower@) {
                Some(s) => r == Ok::<OrderSide, InvalidSideError>(s),
                None => r == Err::<OrderSide, InvalidSideError>(InvalidSideError),
            },
    {
        let l = lower.to_string();
        if l == String::from_str("bid") {
            Ok(OrderSide::Bid)
        } else if l == String::from_str("ask") {
            Ok(OrderSide::Ask)
        } else {
            Err(InvalidSideError)
        }
    }

    /// Reads "bid" or "ask", ignoring case.
    pub fn from_string(side: &str) -> (r: Result<OrderSide, InvalidSideError>)
        ensures
            match Self::spec_from_word(lower_of(side@)) {
                Some(s) => r == Ok::<OrderSide, InvalidSideError>(s),
                None => r == Err::<OrderSide, InvalidSideError>(InvalidSideError),
            },
    {
        let lower = to_lower(side);
        Self::from_lower(lower.as_str())
    }

    pub fn to_string(&self) -> (r: String)
        ensures
            r@ == self.word(),
    {
        match self {
            OrderSide::Bid => String::from_str("bid"),
            OrderSide::Ask => String::from_str("ask"),
        }
    }

    /// The side that an order of this side trades against.
    pub fn opposite(&self) -> (r: OrderSide)
        ensures
            r == self.spec_opposite(),
    {
        match self {
            OrderSide::Bid => OrderSide::Ask,
            OrderSide::Ask => OrderSide::Bid,
        }
    }
}

impl InvalidSideError {
    pub fn message(&self) -> (r: String)
        ensures
            r@ == "side must be bid or ask"@,
    {
        String::from_str("side must be bid or ask")
    }
}

impl OrderType {
    pub open spec fn word(self) -> Seq<char> {
        match self {
            OrderType::Market => "market"@,
            OrderType::Limit => "limit"@,
        }
    }

    pub fn to_string(&self) -> (r: String)
        ensures
            r@ == self.word(),
    {
        match self {
            OrderType::Market => String::from_str("market"),
            OrderType::Limit => String::from_str("limit"),
        }
    }
}

} // verus!

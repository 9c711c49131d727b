use vstd::prelude::*;

use crate::asset::{AssetError, BrokerAsset};
use crate::decimal::{decimal_units, units_of, NumericConversionError};
use crate::domain::{InvalidSideError, Order, OrderSide, OrderType};
use crate::text::{lower_of, upper_of};

verus! {

/// An exact decimal as it arrives: `digits × 10^-scale`.
#[derive(PartialEq, Eq, Structural, Debug, Copy, Clone)]
pub struct RawDecimal {
    pub digits: i128,
    pub scale: i64,
}

/// Why a request could not become an order.
#[derive(Debug)]
pub enum NormalizeError {
    InvalidAsset(AssetError),
    InvalidSide(InvalidSideError),
    NumericConversion(NumericConversionError),
}

pub open spec fn raw_units(d: RawDecimal) -> Option<u64> {
    units_of(d.digits as int, d.scale as int)
}

/// The order a request makes when every field reads: a limit order when a
/// price is given, else a market order; not yet sequenced.
pub open spec fn normalized(
    order_id: u128,
    order_asset: BrokerAsset,
    price_asset: BrokerAsset,
    side: OrderSide,
    price: Option<u64>,
    qty: u64,
    timestamp: u64,
) -> Order {
    Order {
        order_id,
        order_asset,
        price_asset,
        side,
        order_type: if price is Some {
            OrderType::Limit
        } else {
            OrderType::Market
        },
        price,
        qty,
        sequence: 0,
        timestamp,
    }
}

fn read_units(d: RawDecimal) -> (r: Result<u64, NormalizeError>)
    ensures
        match raw_units(d) {
            Some(u) => r matches Ok(v) && v == u,
            None => r matches Err(NormalizeError::NumericConversion(_)),
        },
{
    match decimal_units(d.digits, d.scale) {
        Ok(u) => Ok(u),
        Err(e) => Err(NormalizeError::NumericConversion(e)),
    }
}

/// Turns the fields of a request into an order. The two assets are read
/// ignoring case, then the side, then the price and the quantity, and the
/// first field that does not read gives the error.
pub fn normalize(
    order_id: u128,
    order_asset: &str,
    price_asset: &str,
    side: &str,
    price: Option<RawDecimal>,
    qty: RawDecimal,
    timestamp: u64,
) -> (r: Result<Order, NormalizeError>)
    ensures
        match BrokerAsset::spec_from_symbol(upper_of(order_asset@)) {
            None => r matches Err(NormalizeError::InvalidAsset(e)) && e.msg@ == "invalid asset: "@ + order_asset@,
            Some(oa) => match BrokerAsset::spec_from_symbol(upper_of(price_asset@)) {
                None => r matches Err(NormalizeError::InvalidAsset(e)) && e.msg@ == "invalid asset: "@
                    + price_asset@,
                Some(pa) => match OrderSide::spec_from_word(lower_of(side@)) {
                    None => r matches Err(NormalizeError::InvalidSide(_)),
                    Some(s) => if price matches Some(p) && raw_units(p) is None {
                        r matches Err(NormalizeError::NumericConversion(_))
                    } else {
                        match raw_units(qty) {
                            None => r matches Err(NormalizeError::NumericConversion(_)),
                            Some(q) => r matches Ok(o) && o == normalized(
                                order_id,
                                oa,
                                pa,
                                s,
                                match price {
                                    Some(p) => raw_units(p),
                                    None => None,
                                },
                                q,
                                timestamp,
                            ),
                        }
                    },
                },
            },
        },
{
    let oa = match BrokerAsset::from_string(order_asset) {
        Ok(a) => a,
        Err(e) => return Err(NormalizeError::InvalidAsset(e)),
    };
    let pa = match BrokerAsset::from_string(price_asset) {
        Ok(a) => a,
        Err(e) => return Err(NormalizeError::InvalidAsset(e)),
    };
    let s = match OrderSide::from_string(side) {
        Ok(s) => s,
        Err(e) => return Err(NormalizeError::InvalidSide(e)),
    };
    let limit = match price {
        Some(p) => match read_units(p) {
            Ok(u) => Some(u),
            Err(e) => return Err(e),
        },
        None => None,
    };
    let q = match read_units(qty) {
        Ok(u) => u,
        Err(e) => return Err(e),
    };
    let order_type = match limit {
        Some(_) => OrderType::Limit,
        None => OrderType::Market,
    };
    Ok(
        Order {
            order_id,
            order_asset: oa,
            price_asset: pa,
            side: s,
            order_type,
            price: limit,
            qty: q,
            sequence: 0,
            timestamp,
        },
    )
}

} // verus!

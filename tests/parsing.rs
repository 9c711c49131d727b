use orderbook::asset::BrokerAsset;
use orderbook::decimal::{decimal_units, NumericConversionError};
use orderbook::domain::{InvalidSideError, OrderSide, OrderType};
use orderbook::normalize::{normalize, NormalizeError, RawDecimal};
use orderbook::records::LotStatus;

#[test]
fn asset_symbols_read_in_any_case() {
    assert_eq!(BrokerAsset::from_string("btc").unwrap(), BrokerAsset::BTC);
    assert_eq!(BrokerAsset::from_string("Grin").unwrap(), BrokerAsset::GRIN);
    assert_eq!(BrokerAsset::from_string("USD").unwrap(), BrokerAsset::USD);
    assert_eq!(BrokerAsset::from_string("ada").unwrap(), BrokerAsset::ADA);
    assert_eq!(BrokerAsset::from_string("dOt").unwrap(), BrokerAsset::DOT);
    assert_eq!(BrokerAsset::from_string("eth").unwrap(), BrokerAsset::ETH);
}

#[test]
fn unknown_asset_is_an_error_naming_it() {
    let e = BrokerAsset::from_string("doge").unwrap_err();
    assert_eq!(e.message(), "invalid asset: doge");
    assert!(BrokerAsset::from_string("").is_err());
    assert!(BrokerAsset::from_upper("btc", "btc").is_err());
    assert_eq!(BrokerAsset::from_upper("BTC", "btc").unwrap(), BrokerAsset::BTC);
}

#[test]
fn asset_to_string_is_canonical() {
    assert_eq!(BrokerAsset::GRIN.to_string(), "GRIN");
    assert_eq!(BrokerAsset::BTC.to_string(), "BTC");
}

#[test]
fn side_reads_in_any_case() {
    assert_eq!(OrderSide::from_string("BID").unwrap(), OrderSide::Bid);
    assert_eq!(OrderSide::from_string("Ask").unwrap(), OrderSide::Ask);
    assert_eq!(OrderSide::from_string("buy").unwrap_err(), InvalidSideError);
    assert_eq!(InvalidSideError.message(), "side must be bid or ask");
    assert_eq!(OrderSide::from_lower("bid").unwrap(), OrderSide::Bid);
    assert!(OrderSide::from_lower("BID").is_err());
}

#[test]
fn side_and_type_words() {
    assert_eq!(OrderSide::Bid.to_string(), "bid");
    assert_eq!(OrderSide::Ask.to_string(), "ask");
    assert_eq!(OrderSide::Bid.opposite(), OrderSide::Ask);
    assert_eq!(OrderType::Market.to_string(), "market");
    assert_eq!(OrderType::Limit.to_string(), "limit");
}

#[test]
fn lot_status_labels() {
    assert_eq!(LotStatus::Cancelled.as_str(), "cancelled sale");
    assert_eq!(LotStatus::ForSale.as_str(), "for sale");
    assert_eq!(LotStatus::Pending.as_str(), "pending sale");
    assert_eq!(LotStatus::Archived.as_str(), "archived");
}

#[test]
fn decimals_become_exact_units() {
    assert_eq!(decimal_units(15, 1), Ok(150_000_000));
    assert_eq!(decimal_units(100, 0), Ok(10_000_000_000));
    assert_eq!(decimal_units(1, -3), Ok(100_000_000_000));
    assert_eq!(decimal_units(123_000, 11), Ok(123));
    assert_eq!(decimal_units(1, 8), Ok(1));
    assert_eq!(decimal_units(0, 40), Ok(0));
    assert_eq!(decimal_units(184_467_440_737, 0), Ok(18_446_744_073_700_000_000));
    assert_eq!(decimal_units(184_467_440_737, 2), Ok(184_467_440_737_000_000));
}

#[test]
fn inexact_negative_or_huge_decimals_are_refused() {
    assert_eq!(decimal_units(-1, 0), Err(NumericConversionError));
    assert_eq!(decimal_units(1, 9), Err(NumericConversionError));
    assert_eq!(decimal_units(123_456, 12), Err(NumericConversionError));
    assert_eq!(decimal_units(1, -12), Err(NumericConversionError));
    assert_eq!(decimal_units(184_467_440_738, 0), Err(NumericConversionError));
    assert_eq!(decimal_units(i128::MAX, 0), Err(NumericConversionError));
    assert_eq!(decimal_units(5, i64::MAX), Err(NumericConversionError));
    assert_eq!(decimal_units(5, i64::MIN), Err(NumericConversionError));
}

#[test]
fn request_becomes_limit_or_market_order() {
    let o = normalize(9, "btc", "usd", "Bid", Some(RawDecimal { digits: 1005, scale: 1 }), RawDecimal { digits: 2, scale: 0 }, 77)
        .unwrap();
    assert_eq!(o.order_asset, BrokerAsset::BTC);
    assert_eq!(o.price_asset, BrokerAsset::USD);
    assert_eq!(o.side, OrderSide::Bid);
    assert_eq!(o.order_type, OrderType::Limit);
    assert_eq!(o.price, Some(10_050_000_000));
    assert_eq!(o.qty, 200_000_000);
    assert_eq!(o.timestamp, 77);
    let m = normalize(10, "ETH", "ada", "ask", None, RawDecimal { digits: 5, scale: 2 }, 0).unwrap();
    assert_eq!(m.order_type, OrderType::Market);
    assert_eq!(m.price, None);
    assert_eq!(m.qty, 5_000_000);
}

#[test]
fn request_errors_come_in_field_order() {
    let q = RawDecimal { digits: 1, scale: 0 };
    match normalize(1, "xyz", "usd", "bid", None, q, 0) {
        Err(NormalizeError::InvalidAsset(e)) => assert_eq!(e.message(), "invalid asset: xyz"),
        other => panic!("unexpected {:?}", other),
    }
    match normalize(1, "btc", "eur", "nope", None, q, 0) {
        Err(NormalizeError::InvalidAsset(e)) => assert_eq!(e.message(), "invalid asset: eur"),
        other => panic!("unexpected {:?}", other),
    }
    assert!(matches!(normalize(1, "btc", "usd", "nope", None, q, 0), Err(NormalizeError::InvalidSide(_))));
    assert!(matches!(
        normalize(1, "btc", "usd", "bid", Some(RawDecimal { digits: -1, scale: 0 }), q, 0),
        Err(NormalizeError::NumericConversion(_))
    ));
    assert!(matches!(
        normalize(1, "btc", "usd", "bid", None, RawDecimal { digits: 1, scale: 9 }, 0),
        Err(NormalizeError::NumericConversion(_))
    ));
}

use orderbook::asset::BrokerAsset;
use orderbook::book::OrderBook;
use orderbook::domain::{Order, OrderSide, OrderType};
use orderbook::outcome::{Failed, OrderResult, RejectReason, Remainder, Success, Trade};

const UNIT: u64 = 100_000_000;

fn limit(id: u128, side: OrderSide, price: u64, qty: u64) -> Order {
    Order {
        order_id: id,
        order_asset: BrokerAsset::BTC,
        price_asset: BrokerAsset::USD,
        side,
        order_type: OrderType::Limit,
        price: Some(price * UNIT),
        qty: qty * UNIT,
        sequence: 0,
        timestamp: 1000 + id as u64,
    }
}

fn market(id: u128, side: OrderSide, qty: u64) -> Order {
    Order {
        order_id: id,
        order_asset: BrokerAsset::BTC,
        price_asset: BrokerAsset::USD,
        side,
        order_type: OrderType::Market,
        price: None,
        qty: qty * UNIT,
        sequence: 0,
        timestamp: 1000 + id as u64,
    }
}

fn trades(trace: &[OrderResult]) -> Vec<Trade> {
    trace
        .iter()
        .filter_map(|e| match e {
            Ok(Success::Trade(t)) => Some(*t),
            _ => None,
        })
        .collect()
}

fn new_book() -> OrderBook {
    OrderBook::new(BrokerAsset::BTC, BrokerAsset::USD)
}

#[test]
fn limit_bid_on_empty_book_is_accepted_and_rests() {
    let mut book = new_book();
    let trace = book.process_order(limit(1, OrderSide::Bid, 100, 2));
    assert_eq!(
        trace,
        vec![Ok(Success::Accepted { order_id: 1, price: 100 * UNIT, qty: 2 * UNIT, sequence: 1 })]
    );
    let best = book.best_bid().unwrap();
    assert_eq!(best.price, 100 * UNIT);
    assert_eq!(best.orders.len(), 1);
    assert_eq!(best.orders[0].qty, 2 * UNIT);
    assert_eq!(best.orders[0].order_id, 1);
    assert!(book.best_ask().is_none());
}

#[test]
fn limit_bid_partially_fills_and_rests_the_rest() {
    let mut book = new_book();
    let first = book.process_order(limit(1, OrderSide::Ask, 100, 1));
    assert_eq!(
        first,
        vec![Ok(Success::Accepted { order_id: 1, price: 100 * UNIT, qty: UNIT, sequence: 1 })]
    );
    let trace = book.process_order(limit(2, OrderSide::Bid, 100, 2));
    assert_eq!(trace.len(), 2);
    assert_eq!(
        trace[0],
        Ok(Success::Trade(Trade {
            maker_id: 1,
            taker_id: 2,
            maker_sequence: 1,
            taker_side: OrderSide::Bid,
            price: 100 * UNIT,
            qty: UNIT,
            timestamp: 1002,
        }))
    );
    assert_eq!(
        trace[1],
        Ok(Success::PartiallyFilled {
            order_id: 2,
            filled_qty: UNIT,
            remaining_qty: UNIT,
            remainder: Remainder::Resting { price: 100 * UNIT, sequence: 2 },
        })
    );
    assert!(book.best_ask().is_none());
    assert_eq!(book.depth(OrderSide::Ask), 0);
    let bid = book.best_bid().unwrap();
    assert_eq!(bid.price, 100 * UNIT);
    assert_eq!(bid.orders[0].qty, UNIT);
    assert_eq!(bid.orders[0].order_id, 2);
}

#[test]
fn market_bid_on_empty_book_finds_no_liquidity() {
    let mut book = new_book();
    let trace = book.process_order(market(1, OrderSide::Bid, 5));
    assert_eq!(trace, vec![Err(Failed::NoLiquidity { order_id: 1, qty: 5 * UNIT })]);
    assert!(book.best_bid().is_none());
    assert!(book.best_ask().is_none());
    assert_eq!(book.next_sequence(), 1);
}

#[test]
fn market_bid_takes_best_price_first() {
    let mut book = new_book();
    book.process_order(limit(1, OrderSide::Ask, 100, 1));
    book.process_order(limit(2, OrderSide::Ask, 99, 1));
    let trace = book.process_order(market(3, OrderSide::Bid, 2));
    let ts = trades(&trace);
    assert_eq!(ts.len(), 2);
    assert_eq!((ts[0].maker_id, ts[0].price, ts[0].qty), (2, 99 * UNIT, UNIT));
    assert_eq!((ts[1].maker_id, ts[1].price, ts[1].qty), (1, 100 * UNIT, UNIT));
    assert_eq!(trace[2], Ok(Success::Filled { order_id: 3, qty: 2 * UNIT }));
    assert_eq!(trace.len(), 3);
    assert!(book.best_ask().is_none());
    assert!(book.best_bid().is_none());
    assert!(!book.contains_order(3));
}

#[test]
fn traded_plus_left_over_is_the_order_quantity() {
    let mut book = new_book();
    book.process_order(limit(1, OrderSide::Ask, 100, 3));
    book.process_order(limit(2, OrderSide::Ask, 101, 2));
    let trace = book.process_order(limit(3, OrderSide::Bid, 101, 7));
    let traded: u64 = trades(&trace).iter().map(|t| t.qty).sum();
    let left = match trace.last().unwrap() {
        Ok(Success::PartiallyFilled { remaining_qty, .. }) => *remaining_qty,
        other => panic!("unexpected closing entry {:?}", other),
    };
    assert_eq!(traded, 5 * UNIT);
    assert_eq!(left, 2 * UNIT);
    assert_eq!(traded + left, 7 * UNIT);
    assert_eq!(book.best_bid().unwrap().orders[0].qty, left);
}

#[test]
fn equal_price_asks_fill_in_sequence_order() {
    let mut book = new_book();
    book.process_order(limit(10, OrderSide::Ask, 100, 1));
    book.process_order(limit(11, OrderSide::Ask, 100, 1));
    book.process_order(limit(12, OrderSide::Ask, 100, 1));
    let trace = book.process_order(limit(13, OrderSide::Bid, 100, 2));
    let ts = trades(&trace);
    assert_eq!(ts.iter().map(|t| t.maker_id).collect::<Vec<_>>(), vec![10, 11]);
    assert!(ts[0].maker_sequence < ts[1].maker_sequence);
    assert_eq!(book.best_ask().unwrap().orders[0].order_id, 12);
}

#[test]
fn book_never_left_crossed() {
    let mut book = new_book();
    book.process_order(limit(1, OrderSide::Bid, 98, 1));
    book.process_order(limit(2, OrderSide::Ask, 102, 1));
    book.process_order(limit(3, OrderSide::Bid, 105, 3));
    book.process_order(limit(4, OrderSide::Ask, 97, 1));
    let bid = book.best_bid().map(|l| l.price);
    let ask = book.best_ask().map(|l| l.price);
    if let (Some(b), Some(a)) = (bid, ask) {
        assert!(b < a);
    }
    assert_eq!(bid, Some(105 * UNIT));
    assert_eq!(ask, None);
}

#[test]
fn partly_filled_market_order_is_dropped_not_queued() {
    let mut book = new_book();
    book.process_order(limit(1, OrderSide::Bid, 100, 1));
    let trace = book.process_order(market(2, OrderSide::Ask, 4));
    assert_eq!(trace.len(), 2);
    assert_eq!(
        trace[1],
        Ok(Success::PartiallyFilled {
            order_id: 2,
            filled_qty: UNIT,
            remaining_qty: 3 * UNIT,
            remainder: Remainder::Cancelled,
        })
    );
    assert!(!book.contains_order(2));
    assert!(book.lookup(2).is_none());
    assert!(book.best_bid().is_none());
    assert!(book.best_ask().is_none());
}

#[test]
fn limit_order_fully_filled_reports_filled() {
    let mut book = new_book();
    book.process_order(limit(1, OrderSide::Bid, 100, 3));
    let trace = book.process_order(limit(2, OrderSide::Ask, 99, 2));
    assert_eq!(trades(&trace)[0].price, 100 * UNIT);
    assert_eq!(trace.last().unwrap(), &Ok(Success::Filled { order_id: 2, qty: 2 * UNIT }));
    assert_eq!(book.best_bid().unwrap().orders[0].qty, UNIT);
}

#[test]
fn limit_order_that_does_not_reach_rests() {
    let mut book = new_book();
    book.process_order(limit(1, OrderSide::Ask, 101, 1));
    let trace = book.process_order(limit(2, OrderSide::Bid, 100, 1));
    assert_eq!(
        trace,
        vec![Ok(Success::Accepted { order_id: 2, price: 100 * UNIT, qty: UNIT, sequence: 2 })]
    );
    assert_eq!(book.depth(OrderSide::Bid), 1);
    assert_eq!(book.depth(OrderSide::Ask), 1);
}

#[test]
fn bid_levels_go_from_highest_price() {
    let mut book = new_book();
    book.process_order(limit(1, OrderSide::Bid, 97, 1));
    book.process_order(limit(2, OrderSide::Bid, 99, 1));
    book.process_order(limit(3, OrderSide::Bid, 98, 1));
    book.process_order(limit(4, OrderSide::Bid, 99, 1));
    assert_eq!(book.depth(OrderSide::Bid), 3);
    let best = book.best_bid().unwrap();
    assert_eq!(best.price, 99 * UNIT);
    assert_eq!(best.orders.iter().map(|o| o.order_id).collect::<Vec<_>>(), vec![2, 4]);
    assert_eq!(best.orders[1].sequence, 4);
}

#[test]
fn invalid_orders_are_refused_without_change() {
    let mut book = new_book();
    book.process_order(limit(1, OrderSide::Bid, 100, 1));
    let mut zero = limit(2, OrderSide::Bid, 100, 1);
    zero.qty = 0;
    let mut no_price = limit(3, OrderSide::Bid, 100, 1);
    no_price.price = None;
    let mut priced_market = market(4, OrderSide::Bid, 1);
    priced_market.price = Some(UNIT);
    let mut other_pair = limit(5, OrderSide::Bid, 100, 1);
    other_pair.order_asset = BrokerAsset::ETH;
    let duplicate = limit(1, OrderSide::Ask, 200, 1);
    let cases = vec![
        (zero, RejectReason::ZeroQuantity),
        (no_price, RejectReason::PriceMismatch),
        (priced_market, RejectReason::PriceMismatch),
        (other_pair, RejectReason::WrongPair),
        (duplicate, RejectReason::DuplicateId),
    ];
    for (order, reason) in cases {
        let trace = book.process_order(order);
        assert_eq!(
            trace,
            vec![Err(Failed::ValidationError { order_id: order.order_id, reason })]
        );
    }
    assert_eq!(book.depth(OrderSide::Bid), 1);
    assert_eq!(book.depth(OrderSide::Ask), 0);
    assert_eq!(book.next_sequence(), 2);
}

#[test]
fn cancel_removes_order_and_empty_level() {
    let mut book = new_book();
    book.process_order(limit(1, OrderSide::Ask, 100, 1));
    book.process_order(limit(2, OrderSide::Ask, 100, 2));
    book.process_order(limit(3, OrderSide::Ask, 101, 1));
    assert_eq!(book.lookup(2), Some((OrderSide::Ask, 100 * UNIT, 2)));
    let removed = book.cancel(2).unwrap();
    assert_eq!(removed.order_id, 2);
    assert_eq!(removed.qty, 2 * UNIT);
    assert!(!book.contains_order(2));
    assert_eq!(book.depth(OrderSide::Ask), 2);
    book.cancel(1).unwrap();
    assert_eq!(book.depth(OrderSide::Ask), 1);
    assert_eq!(book.best_ask().unwrap().price, 101 * UNIT);
    assert_eq!(book.cancel(9).unwrap_err(), Failed::OrderNotFound { order_id: 9 });
}

#[test]
fn remove_front_and_fill_front() {
    let mut book = new_book();
    book.process_order(limit(1, OrderSide::Bid, 100, 3));
    book.process_order(limit(2, OrderSide::Bid, 100, 1));
    assert_eq!(book.front(OrderSide::Bid).unwrap().1.order_id, 1);
    book.fill_front(OrderSide::Bid, UNIT);
    assert_eq!(book.front(OrderSide::Bid).unwrap().1.qty, 2 * UNIT);
    let gone = book.remove_front_of(OrderSide::Bid);
    assert_eq!(gone.order_id, 1);
    assert_eq!(book.front(OrderSide::Bid).unwrap().1.order_id, 2);
    book.remove_front_of(OrderSide::Bid);
    assert_eq!(book.front(OrderSide::Bid), None);
    assert_eq!(book.depth(OrderSide::Bid), 0);
}

#[test]
fn insert_places_without_matching() {
    let mut book = new_book();
    let seq = book.insert(limit(7, OrderSide::Ask, 50, 1));
    assert_eq!(seq, 1);
    assert_eq!(book.lookup(7), Some((OrderSide::Ask, 50 * UNIT, 1)));
    assert_eq!(book.rejection_of(&limit(8, OrderSide::Bid, 40, 1)), None);
    assert_eq!(book.rejection_of(&limit(7, OrderSide::Bid, 40, 1)), Some(RejectReason::DuplicateId));
}

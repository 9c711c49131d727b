//! An in-memory order-matching engine for pairs of broker assets.
//!
//! - `asset`, `domain`: the traded symbols, sides, order types and orders.
//! - `decimal`, `normalize`: exact decimal amounts and the checks that turn
//!   the fields of a request into an order.
//! - `book`: the resting orders of one pair, as price levels of first-in,
//!   first-out queues, and what the book keeps true of them.
//! - `matching`: `OrderBook::process_order` under price-time priority.
//! - `outcome`: trades and the entries of a processing trace.
//! - `laws`: what every processing guarantees, proved over the model.
//! - `records`: plain request and response records of the surrounding
//!   service.
//! - `text`: case folding.
pub mod asset;
pub mod book;
pub mod decimal;
pub mod domain;
pub mod laws;
pub mod matching;
pub mod normalize;
pub mod outcome;
pub mod records;
pub mod text;

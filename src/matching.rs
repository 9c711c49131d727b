use vstd::prelude::*;

use crate::book::{lemma_take_front_wf, place, price_reaches, reaches, take_front, BookModel, LevelModel, OrderBook};
use crate::domain::{Order, OrderSide, OrderType};
use crate::outcome::{Failed, OrderResult, RejectReason, Remainder, Success, Trade};

verus! {

/// An incoming order may trade at `price`: a market order at any price, a
/// limit order at its limit or better.
pub open spec fn crosses(taker: Order, price: u64) -> bool {
    match taker.price {
        None => true,
        Some(limit) => reaches(taker.side, limit, price),
    }
}

pub open spec fn min_qty(a: u64, b: u64) -> u64 {
    if a <= b {
        a
    } else {
        b
    }
}

/// The trade of `q` units between `taker` and the resting `maker`, at the
/// maker's price.
pub open spec fn trade_of(taker: Order, maker: Order, price: u64, q: u64) -> Trade {
    Trade {
        maker_id: maker.order_id,
        taker_id: taker.order_id,
        maker_sequence: maker.sequence,
        taker_side: taker.side,
        price,
        qty: q,
        timestamp: taker.timestamp,
    }
}

/// Matching `rem` units of `taker` against `levels`, the opposite side from
/// its best price down: while something is left to match, the oldest order
/// at the best price is taken, as far as both quantities allow, as long as
/// the taker accepts that price. Gives the trades in order, the levels
/// left, and the quantity left.
pub open spec fn sweep(levels: Seq<LevelModel>, taker: Order, rem: u64) -> (Seq<Trade>, Seq<LevelModel>, u64)
    decreases rem,
{
    if rem == 0 || levels.len() == 0 || levels[0].orders.len() == 0 || levels[0].orders[0].qty == 0 || !crosses(
        taker,
        levels[0].price,
    ) {
        (seq![], levels, rem)
    } else {
        let maker = levels[0].orders[0];
        let q = min_qty(rem, maker.qty);
        let rest = sweep(take_front(levels, q), taker, (rem - q) as u64);
        (seq![trade_of(taker, maker, levels[0].price, q)] + rest.0, rest.1, rest.2)
    }
}

/// Why `o` is refused by the book, if it is; checked in this order.
pub open spec fn rejection(m: BookModel, o: Order) -> Option<RejectReason> {
    if o.qty == 0 {
        Some(RejectReason::ZeroQuantity)
    } else if (o.order_type == OrderType::Limit) != (o.price is Some) {
        Some(RejectReason::PriceMismatch)
    } else if o.order_asset != m.order_asset || o.price_asset != m.price_asset {
        Some(RejectReason::WrongPair)
    } else if m.holds(o.order_id) {
        Some(RejectReason::DuplicateId)
    } else if m.next_sequence == u64::MAX {
        Some(RejectReason::SequenceExhausted)
    } else {
        None
    }
}

/// The trace entries of a run of trades.
pub open spec fn fills(ts: Seq<Trade>) -> Seq<OrderResult> {
    ts.map_values(|t: Trade| Ok::<Success, Failed>(Success::Trade(t)))
}

/// The book after `o` is processed, and the trace: one entry per trade, in
/// the order they happened, then one entry for what became of the rest.
pub open spec fn process_spec(m: BookModel, o: Order) -> (BookModel, Seq<OrderResult>) {
    match rejection(m, o) {
        Some(reason) => (m, seq![Err(Failed::ValidationError { order_id: o.order_id, reason })]),
        None => {
            let opp = o.side.spec_opposite();
            let swept = sweep(m.side(opp), o, o.qty);
            let trades = swept.0;
            let rem = swept.2;
            let m1 = m.with_side(opp, swept.1);
            let filled = (o.qty - rem) as u64;
            if rem == 0 {
                (m1, fills(trades).push(Ok(Success::Filled { order_id: o.order_id, qty: o.qty })))
            } else if o.order_type == OrderType::Limit {
                let price = o.price->Some_0;
                let sequence = m.next_sequence;
                let resting = Order { sequence, ..Order { qty: rem, ..o } };
                let m2 = BookModel {
                    next_sequence: (sequence + 1) as u64,
                    ..m1.with_side(o.side, place(o.side, m1.side(o.side), resting))
                };
                let last = if trades.len() == 0 {
                    Success::Accepted { order_id: o.order_id, price, qty: rem, sequence }
                } else {
                    Success::PartiallyFilled {
                        order_id: o.order_id,
                        filled_qty: filled,
                        remaining_qty: rem,
                        remainder: Remainder::Resting { price, sequence },
                    }
                };
                (m2, fills(trades).push(Ok(last)))
            } else {
                let last = if trades.len() == 0 {
                    Err(Failed::NoLiquidity { order_id: o.order_id, qty: o.qty })
                } else {
                    Ok(
                        Success::PartiallyFilled {
                            order_id: o.order_id,
                            filled_qty: filled,
                            remaining_qty: rem,
                            remainder: Remainder::Cancelled,
                        },
                    )
                };
                (m1, fills(trades).push(last))
            }
        },
    }
}

/// Sweeping a well-formed side never leaves more than it was given, and
/// when something is left, matching stopped because the side ran out or
/// its best price is beyond the taker's limit.
pub proof fn lemma_sweep_stops(m: BookModel, side: OrderSide, taker: Order, rem: u64)
    requires
        m.wf(),
    ensures
        sweep(m.side(side), taker, rem).2 <= rem,
        sweep(m.side(side), taker, rem).2 > 0 ==> (sweep(m.side(side), taker, rem).1.len() == 0
            || !crosses(taker, sweep(m.side(side), taker, rem).1[0].price)),
        m.with_side(side, sweep(m.side(side), taker, rem).1).wf(),
    decreases rem,
{
    let levels = m.side(side);
    if levels.len() > 0 {
        assert(m.level_wf(side, levels[0]));
        assert(m.resting_wf(side, levels[0].price, levels[0].orders[0]));
    }
    if rem == 0 || levels.len() == 0 || !crosses(taker, levels[0].price) {
        assert(m.with_side(side, levels) == m);
    } else {
        let q = min_qty(rem, levels[0].orders[0].qty);
        lemma_take_front_wf(m, side, q);
        let m2 = m.with_side(side, take_front(levels, q));
        assert(m2.side(side) == take_front(levels, q));
        lemma_sweep_stops(m2, side, taker, (rem - q) as u64);
        assert(m2.with_side(side, sweep(m2.side(side), taker, (rem - q) as u64).1) == m.with_side(
            side,
            sweep(levels, taker, rem).1,
        ));
    }
}

/// Where the order at `(i, j)` of `take_front(levels, q)` stood before.
pub open spec fn origin(levels: Seq<LevelModel>, q: u64, i: int, j: int) -> (int, int) {
    if q < levels[0].orders[0].qty {
        (i, j)
    } else if levels[0].orders.len() > 1 {
        if i == 0 {
            (0, j + 1)
        } else {
            (i, j)
        }
    } else {
        (i + 1, j)
    }
}

pub open spec fn located(levels: Seq<LevelModel>, i: int, j: int) -> bool {
    0 <= i < levels.len() && 0 <= j < levels[i].orders.len()
}

pub proof fn lemma_origin(levels: Seq<LevelModel>, q: u64, i: int, j: int)
    requires
        levels.len() > 0,
        levels[0].orders.len() > 0,
        located(take_front(levels, q), i, j),
    ensures
        located(levels, origin(levels, q, i, j).0, origin(levels, q, i, j).1),
        levels[origin(levels, q, i, j).0].price == take_front(levels, q)[i].price,
        levels[origin(levels, q, i, j).0].orders[origin(levels, q, i, j).1].order_id == take_front(
            levels,
            q,
        )[i].orders[j].order_id,
        levels[origin(levels, q, i, j).0].orders[origin(levels, q, i, j).1].sequence == take_front(
            levels,
            q,
        )[i].orders[j].sequence,
{
}

/// Sweeping a side brings no id onto it.
pub proof fn lemma_sweep_keeps_out(m: BookModel, side: OrderSide, taker: Order, rem: u64, id: u128)
    requires
        m.wf(),
        !m.side_holds(side, id),
    ensures
        !m.with_side(side, sweep(m.side(side), taker, rem).1).side_holds(side, id),
    decreases rem,
{
    let levels = m.side(side);
    if rem == 0 || levels.len() == 0 || levels[0].orders.len() == 0 || levels[0].orders[0].qty == 0 || !crosses(
        taker,
        levels[0].price,
    ) {
        assert(m.with_side(side, levels) == m);
    } else {
        assert(m.level_wf(side, levels[0]));
        let q = min_qty(rem, levels[0].orders[0].qty);
        let t = take_front(levels, q);
        lemma_take_front_wf(m, side, q);
        let m2 = m.with_side(side, t);
        assert(m2.side(side) == t);
        assert(!m2.side_holds(side, id)) by {
            if m2.side_holds(side, id) {
                let (i, j) = choose|i: int, j: int|
                    0 <= i < m2.side(side).len() && 0 <= j < m2.side(side)[i].orders.len() && (
                    #[trigger] m2.side(side)[i].orders[j]).order_id == id;
                lemma_origin(levels, q, i, j);
                let (i2, j2) = origin(levels, q, i, j);
                assert(m.side(side)[i2].orders[j2].order_id == id);
            }
        }
        lemma_sweep_keeps_out(m2, side, taker, (rem - q) as u64, id);
        assert(m2.with_side(side, sweep(t, taker, (rem - q) as u64).1) == m.with_side(
            side,
            sweep(levels, taker, rem).1,
        ));
    }
}

fn order_crosses(o: &Order, price: u64) -> (r: bool)
    ensures
        r == crosses(*o, price),
{
    match o.price {
        None => true,
        Some(limit) => price_reaches(o.side, limit, price),
    }
}

impl OrderBook {
    /// Why the book refuses `o`, if it does.
    pub fn rejection_of(&self, o: &Order) -> (r: Option<RejectReason>)
        ensures
            r == rejection(self@, *o),
    {
        let is_limit = match o.order_type {
            OrderType::Limit => true,
            OrderType::Market => false,
        };
        if o.qty == 0 {
            Some(RejectReason::ZeroQuantity)
        } else if is_limit != o.price.is_some() {
            Some(RejectReason::PriceMismatch)
        } else if o.order_asset != self.order_asset() || o.price_asset != self.price_asset() {
            Some(RejectReason::WrongPair)
        } else if self.contains_order(o.order_id) {
            Some(RejectReason::DuplicateId)
        } else if self.next_sequence() == u64::MAX {
            Some(RejectReason::SequenceExhausted)
        } else {
            None
        }
    }

    /// Matches `order` against the opposite side under price-time priority,
    /// then rests what is left of a limit order and drops what is left of a
    /// market order. Returns every trade in the order it happened, then one
    /// entry for the fate of the rest.
    pub fn process_order(&mut self, order: Order) -> (r: Vec<OrderResult>)
        requires
            old(self)@.wf(),
        ensures
            final(self)@.wf(),
            (final(self)@, r@) == process_spec(old(self)@, order),
    {
        let mut trace: Vec<OrderResult> = Vec::new();
        match self.rejection_of(&order) {
            Some(reason) => {
                trace.push(Err(Failed::ValidationError { order_id: order.order_id, reason }));
                assert(trace@ =~= seq![Err(Failed::ValidationError { order_id: order.order_id, reason })]);
                return trace;
            },
            None => {},
        }
        let ghost m0 = self@;
        let opp = order.side.opposite();
        let mut rem: u64 = order.qty;
        let ghost mut done: Seq<Trade> = seq![];
        assert(trace@ =~= fills(done));
        loop
            invariant
                self@.wf(),
                self@ == m0.with_side(opp, self@.side(opp)),
                trace@ == fills(done),
                rem <= order.qty,
                sweep(m0.side(opp), order, order.qty) == (done + sweep(self@.side(opp), order, rem).0, sweep(
                    self@.side(opp),
                    order,
                    rem,
                ).1, sweep(self@.side(opp), order, rem).2),
            ensures
                self@.wf(),
                self@ == m0.with_side(opp, self@.side(opp)),
                trace@ == fills(done),
                sweep(self@.side(opp), order, rem) == (Seq::<Trade>::empty(), self@.side(opp), rem),
                sweep(m0.side(opp), order, order.qty) == (done, self@.side(opp), rem),
            decreases rem,
        {
            if rem == 0 {
                assert(done + Seq::<Trade>::empty() =~= done);
                break;
            }
            match self.front(opp) {
                None => {
                    assert(done + Seq::<Trade>::empty() =~= done);
                    break;
                },
                Some((price, maker)) => {
                    proof {
                        assert(self@.level_wf(opp, self@.side(opp)[0]));
                        assert(self@.resting_wf(opp, price, maker));
                    }
                    if !order_crosses(&order, price) {
                        assert(done + Seq::<Trade>::empty() =~= done);
                        break;
                    }
                    let q = if rem <= maker.qty {
                        rem
                    } else {
                        maker.qty
                    };
                    let t = Trade {
                        maker_id: maker.order_id,
                        taker_id: order.order_id,
                        maker_sequence: maker.sequence,
                        taker_side: order.side,
                        price,
                        qty: q,
                        timestamp: order.timestamp,
                    };
                    let ghost levels = self@.side(opp);
                    assert(t == trade_of(order, maker, price, q));
                    trace.push(Ok(Success::Trade(t)));
                    self.fill_front(opp, q);
                    rem = rem - q;
                    proof {
                        let rest = sweep(take_front(levels, q), order, rem);
                        assert(sweep(levels, order, (rem + q) as u64) == (seq![t] + rest.0, rest.1, rest.2));
                        assert(done + (seq![t] + rest.0) =~= done.push(t) + rest.0);
                        done = done.push(t);
                        assert(trace@ =~= fills(done));
                        assert(self@.side(opp) == take_front(levels, q));
                    }
                },
            }
        }
        proof {
            lemma_sweep_stops(m0, opp, order, order.qty);
        }
        let filled = order.qty - rem;
        let ghost fs = trace@;
        if rem == 0 {
            trace.push(Ok(Success::Filled { order_id: order.order_id, qty: order.qty }));
        } else {
            match order.order_type {
                OrderType::Limit => {
                    let price = match order.price {
                        Some(p) => p,
                        None => 0,
                    };
                    proof {
                        lemma_sweep_keeps_out(m0, opp, order, order.qty, order.order_id);
                        assert(self@.side(order.side) == m0.side(order.side));
                    }
                    let sequence = self.insert(Order { qty: rem, ..order });
                    if trace.len() == 0 {
                        trace.push(Ok(Success::Accepted { order_id: order.order_id, price, qty: rem, sequence }));
                    } else {
                        trace.push(
                            Ok(
                                Success::PartiallyFilled {
                                    order_id: order.order_id,
                                    filled_qty: filled,
                                    remaining_qty: rem,
                                    remainder: Remainder::Resting { price, sequence },
                                },
                            ),
                        );
                    }
                },
                OrderType::Market => {
                    if trace.len() == 0 {
                        trace.push(Err(Failed::NoLiquidity { order_id: order.order_id, qty: order.qty }));
                    } else {
                        trace.push(
                            Ok(
                                Success::PartiallyFilled {
                                    order_id: order.order_id,
                                    filled_qty: filled,
                                    remaining_qty: rem,
                                    remainder: Remainder::Cancelled,
                                },
                            ),
                        );
                    }
                },
            }
        }
        trace
    }
}

} // verus!

use vstd::prelude::*;

use crate::book::{
    ahead, lemma_place_is_place_at, lemma_place_wf, lemma_placement_exists, lemma_take_front_wf, placement,
    take_front, BookModel, LevelModel,
};
use crate::domain::{Order, OrderSide, OrderType};
use crate::matching::{
    crosses, fills, lemma_origin, lemma_sweep_keeps_out, lemma_sweep_stops, located, min_qty, origin, process_spec,
    rejection, sweep,
};
use crate::outcome::{Failed, OrderResult, Success, Trade};

verus! {

/// The total quantity of a run of trades.
pub open spec fn traded(ts: Seq<Trade>) -> nat
    decreases ts.len(),
{
    if ts.len() == 0 {
        0
    } else {
        ts[0].qty as nat + traded(ts.drop_first())
    }
}

/// The total quantity of the trade entries of a trace.
pub open spec fn trace_traded(trace: Seq<OrderResult>) -> nat
    decreases trace.len(),
{
    if trace.len() == 0 {
        0
    } else {
        let here: nat = match trace[0] {
            Ok(Success::Trade(t)) => t.qty as nat,
            _ => 0,
        };
        here + trace_traded(trace.drop_first())
    }
}

/// The quantity that a closing entry reports as not traded.
pub open spec fn unfilled(e: OrderResult) -> nat {
    match e {
        Ok(Success::Accepted { qty, .. }) => qty as nat,
        Ok(Success::PartiallyFilled { remaining_qty, .. }) => remaining_qty as nat,
        Err(Failed::NoLiquidity { qty, .. }) => qty as nat,
        _ => 0,
    }
}

/// Some order of `levels` rested at the trade's price with its maker's
/// sequence number.
pub open spec fn sourced(levels: Seq<LevelModel>, t: Trade) -> bool {
    exists|i: int, j: int|
        located(levels, i, j) && levels[i].price == t.price && (#[trigger] levels[i].orders[j]).sequence
            == t.maker_sequence
}

proof fn lemma_sweep_traded(levels: Seq<LevelModel>, taker: Order, rem: u64)
    ensures
        traded(sweep(levels, taker, rem).0) + sweep(levels, taker, rem).2 == rem,
    decreases rem,
{
    if rem == 0 || levels.len() == 0 || levels[0].orders.len() == 0 || levels[0].orders[0].qty == 0 || !crosses(
        taker,
        levels[0].price,
    ) {
    } else {
        let q = min_qty(rem, levels[0].orders[0].qty);
        lemma_sweep_traded(take_front(levels, q), taker, (rem - q) as u64);
        let ts = sweep(levels, taker, rem).0;
        assert(ts.drop_first() =~= sweep(take_front(levels, q), taker, (rem - q) as u64).0);
    }
}

proof fn lemma_trace_traded_fills(ts: Seq<Trade>, last: OrderResult)
    requires
        !(last matches Ok(Success::Trade(_))),
    ensures
        trace_traded(fills(ts).push(last)) == traded(ts),
    decreases ts.len(),
{
    if ts.len() == 0 {
        assert(fills(ts).push(last).drop_first() =~= Seq::<OrderResult>::empty());
        assert(trace_traded(Seq::<OrderResult>::empty()) == 0);
        assert(fills(ts).push(last)[0] == last);
    } else {
        lemma_trace_traded_fills(ts.drop_first(), last);
        assert(fills(ts).push(last).drop_first() =~= fills(ts.drop_first()).push(last));
        assert(fills(ts).push(last)[0] == Ok::<Success, Failed>(Success::Trade(ts[0])));
    }
}

/// Every unit of an order that the book takes is either traded or reported
/// as left over by the closing entry of its trace.
pub proof fn lemma_quantity_conserved(m: BookModel, o: Order)
    requires
        m.wf(),
        rejection(m, o) is None,
    ensures
        trace_traded(process_spec(m, o).1) + unfilled(process_spec(m, o).1.last()) == o.qty,
{
    let opp = o.side.spec_opposite();
    let swept = sweep(m.side(opp), o, o.qty);
    lemma_sweep_traded(m.side(opp), o, o.qty);
    let trace = process_spec(m, o).1;
    lemma_trace_traded_fills(swept.0, trace.last());
    assert(trace == fills(swept.0).push(trace.last()));
    if swept.0.len() == 0 {
        assert(traded(swept.0) == 0);
    }
}

proof fn lemma_sweep_sourced(m: BookModel, side: OrderSide, taker: Order, rem: u64)
    requires
        m.wf(),
    ensures
        forall|k: int|
            0 <= k < sweep(m.side(side), taker, rem).0.len() ==> sourced(
                m.side(side),
                #[trigger] sweep(m.side(side), taker, rem).0[k],
            ),
    decreases rem,
{
    let levels = m.side(side);
    if rem == 0 || levels.len() == 0 || levels[0].orders.len() == 0 || levels[0].orders[0].qty == 0 || !crosses(
        taker,
        levels[0].price,
    ) {
    } else {
        assert(m.level_wf(side, levels[0]));
        let q = min_qty(rem, levels[0].orders[0].qty);
        lemma_take_front_wf(m, side, q);
        let m2 = m.with_side(side, take_front(levels, q));
        assert(m2.side(side) == take_front(levels, q));
        lemma_sweep_sourced(m2, side, taker, (rem - q) as u64);
        let ts = sweep(levels, taker, rem).0;
        let rest = sweep(take_front(levels, q), taker, (rem - q) as u64).0;
        assert forall|k: int| 0 <= k < ts.len() implies sourced(levels, #[trigger] ts[k]) by {
            if k == 0 {
                assert(located(levels, 0, 0));
                assert(levels[0].orders[0].sequence == ts[0].maker_sequence);
            } else {
                assert(ts[k] == rest[k - 1]);
                assert(sourced(take_front(levels, q), rest[k - 1]));
                let (i, j) = choose|i: int, j: int|
                    located(take_front(levels, q), i, j) && take_front(levels, q)[i].price == rest[k - 1].price
                        && (#[trigger] take_front(levels, q)[i].orders[j]).sequence == rest[k - 1].maker_sequence;
                lemma_origin(levels, q, i, j);
                let (i2, j2) = origin(levels, q, i, j);
                assert(levels[i2].orders[j2].sequence == ts[k].maker_sequence);
            }
        }
    }
}

proof fn lemma_sweep_priority(m: BookModel, side: OrderSide, taker: Order, rem: u64)
    requires
        m.wf(),
    ensures
        forall|a: int, b: int|
            0 <= a < b < sweep(m.side(side), taker, rem).0.len() && sweep(m.side(side), taker, rem).0[a].price
                == sweep(m.side(side), taker, rem).0[b].price ==> sweep(m.side(side), taker, rem).0[a].maker_sequence
                < sweep(m.side(side), taker, rem).0[b].maker_sequence,
    decreases rem,
{
    let levels = m.side(side);
    if rem == 0 || levels.len() == 0 || levels[0].orders.len() == 0 || levels[0].orders[0].qty == 0 || !crosses(
        taker,
        levels[0].price,
    ) {
    } else {
        assert(m.level_wf(side, levels[0]));
        let q = min_qty(rem, levels[0].orders[0].qty);
        let t = take_front(levels, q);
        lemma_take_front_wf(m, side, q);
        let m2 = m.with_side(side, t);
        assert(m2.side(side) == t);
        lemma_sweep_priority(m2, side, taker, (rem - q) as u64);
        lemma_sweep_sourced(m2, side, taker, (rem - q) as u64);
        let ts = sweep(levels, taker, rem).0;
        let rest = sweep(t, taker, (rem - q) as u64).0;
        assert forall|a: int, b: int|
            0 <= a < b < ts.len() && ts[a].price == ts[b].price implies ts[a].maker_sequence
            < ts[b].maker_sequence by {
            assert(ts[b] == rest[b - 1]);
            if a == 0 {
                assert(sourced(t, rest[b - 1]));
                let (i, j) = choose|i: int, j: int|
                    located(t, i, j) && t[i].price == rest[b - 1].price && (#[trigger] t[i].orders[j]).sequence
                        == rest[b - 1].maker_sequence;
                if q < levels[0].orders[0].qty {
                    assert(rem - q == 0);
                    assert(rest.len() == 0);
                } else if levels[0].orders.len() > 1 {
                    if i == 0 {
                        assert(t[0].orders[j] == levels[0].orders[j + 1]);
                    } else {
                        assert(t[i] == levels[i]);
                        assert(ahead(side, levels[0].price, levels[i].price));
                    }
                } else {
                    assert(t[i] == levels[i + 1]);
                    assert(ahead(side, levels[0].price, levels[i + 1].price));
                }
            } else {
                assert(ts[a] == rest[a - 1]);
            }
        }
    }
}

/// Price-time priority: within one processing, the trades made at one
/// price take the resting orders in increasing sequence order.
pub proof fn lemma_time_priority(m: BookModel, o: Order, a: int, b: int)
    requires
        m.wf(),
        0 <= a < b < process_spec(m, o).1.len(),
        process_spec(m, o).1[a] matches Ok(Success::Trade(_)),
        process_spec(m, o).1[b] matches Ok(Success::Trade(_)),
        process_spec(m, o).1[a]->Ok_0->Trade_0.price == process_spec(m, o).1[b]->Ok_0->Trade_0.price,
    ensures
        process_spec(m, o).1[a]->Ok_0->Trade_0.maker_sequence < process_spec(m, o).1[b]->Ok_0->Trade_0.maker_sequence,
{
    let opp = o.side.spec_opposite();
    let swept = sweep(m.side(opp), o, o.qty);
    lemma_sweep_priority(m, opp, o, o.qty);
    let trace = process_spec(m, o).1;
    if rejection(m, o) is None {
        assert(trace.len() == swept.0.len() + 1);
        assert(b < swept.0.len()) by {
            assert(trace[swept.0.len() as int] == trace.last());
        }
        assert(trace[a] == fills(swept.0)[a]);
        assert(trace[b] == fills(swept.0)[b]);
    }
}

/// The book is never left crossed: after any order is processed on a
/// well-formed book, the best bid is below the best ask whenever both sides
/// hold orders, and the book is still well formed.
pub proof fn lemma_no_cross(m: BookModel, o: Order)
    requires
        m.wf(),
    ensures
        process_spec(m, o).0.wf(),
        !process_spec(m, o).0.crossed(),
{
    if rejection(m, o) is None {
        let opp = o.side.spec_opposite();
        let swept = sweep(m.side(opp), o, o.qty);
        lemma_sweep_stops(m, opp, o, o.qty);
        let m1 = m.with_side(opp, swept.1);
        if swept.2 > 0 && o.order_type == OrderType::Limit {
            let resting = Order { sequence: m.next_sequence, ..Order { qty: swept.2, ..o } };
            let p = o.price->Some_0;
            lemma_placement_exists(o.side, m1.side(o.side), p);
            let i = choose|i: int| placement(o.side, m1.side(o.side), p, i);
            lemma_place_is_place_at(o.side, m1.side(o.side), resting, i);
            assert(m1.side(opp) == swept.1);
            lemma_sweep_keeps_out(m, opp, o, o.qty, o.order_id);
            assert(m1.side(o.side) == m.side(o.side));
            lemma_place_wf(m1, resting, i);
        }
    }
}

/// A market order never rests: when its id was not in the book before, it
/// is not there after the order is processed.
pub proof fn lemma_market_never_rests(m: BookModel, o: Order)
    requires
        m.wf(),
        o.order_type == OrderType::Market,
        !m.holds(o.order_id),
    ensures
        !process_spec(m, o).0.holds(o.order_id),
{
    if rejection(m, o) is None {
        let opp = o.side.spec_opposite();
        lemma_sweep_keeps_out(m, opp, o, o.qty, o.order_id);
        let m1 = m.with_side(opp, sweep(m.side(opp), o, o.qty).1);
        assert(m1.side(o.side) == m.side(o.side));
        assert(!m1.side_holds(o.side, o.order_id));
    }
}

} // verus!

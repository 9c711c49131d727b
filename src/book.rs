use vstd::prelude::*;

use crate::asset::BrokerAsset;
use crate::domain::{Order, OrderSide, OrderType};
use crate::outcome::Failed;

verus! {

/// The resting orders at one price, oldest first.
#[derive(Debug)]
pub struct PriceLevel {
    pub price: u64,
    pub orders: Vec<Order>,
}

/// What a price level holds.
pub struct LevelModel {
    pub price: u64,
    pub orders: Seq<Order>,
}

impl View for PriceLevel {
    type V = LevelModel;

    open spec fn view(&self) -> LevelModel {
        LevelModel { price: self.price, orders: self.orders@ }
    }
}

pub open spec fn levels_view(v: Seq<PriceLevel>) -> Seq<LevelModel> {
    v.map_values(|l: PriceLevel| l@)
}

/// What an order book holds: its pair, its two sides as price levels from
/// the best price down, and the sequence number the next resting order gets.
pub struct BookModel {
    pub order_asset: BrokerAsset,
    pub price_asset: BrokerAsset,
    pub bids: Seq<LevelModel>,
    pub asks: Seq<LevelModel>,
    pub next_sequence: u64,
}

/// On `side`, a level at price `a` is matched before one at price `b`.
pub open spec fn ahead(side: OrderSide, a: u64, b: u64) -> bool {
    match side {
        OrderSide::Bid => a > b,
        OrderSide::Ask => a < b,
    }
}

impl BookModel {
    pub open spec fn side(self, s: OrderSide) -> Seq<LevelModel> {
        match s {
            OrderSide::Bid => self.bids,
            OrderSide::Ask => self.asks,
        }
    }

    pub open spec fn with_side(self, s: OrderSide, levels: Seq<LevelModel>) -> BookModel {
        match s {
            OrderSide::Bid => BookModel { bids: levels, ..self },
            OrderSide::Ask => BookModel { asks: levels, ..self },
        }
    }

    /// A resting order on `side` at `price`: a limit order of this pair with
    /// a positive quantity and a sequence number already handed out.
    pub open spec fn resting_wf(self, side: OrderSide, price: u64, o: Order) -> bool {
        &&& o.qty > 0
        &&& o.price == Some(price)
        &&& o.side == side
        &&& o.order_type == OrderType::Limit
        &&& o.order_asset == self.order_asset
        &&& o.price_asset == self.price_asset
        &&& o.sequence < self.next_sequence
    }

    /// A level is never empty, and its queue is in increasing sequence order.
    pub open spec fn level_wf(self, side: OrderSide, l: LevelModel) -> bool {
        &&& l.orders.len() > 0
        &&& forall|j: int| 0 <= j < l.orders.len() ==> self.resting_wf(side, l.price, #[trigger] l.orders[j])
        &&& forall|j: int, k: int| 0 <= j < k < l.orders.len() ==> l.orders[j].sequence < l.orders[k].sequence
    }

    /// Each level is well formed, and levels go strictly from the best price
    /// to the worst.
    pub open spec fn side_wf(self, side: OrderSide, levels: Seq<LevelModel>) -> bool {
        &&& forall|i: int| 0 <= i < levels.len() ==> self.level_wf(side, #[trigger] levels[i])
        &&& forall|i: int, j: int| 0 <= i < j < levels.len() ==> ahead(side, levels[i].price, levels[j].price)
    }

    /// The best bid is at or above the best ask.
    pub open spec fn crossed(self) -> bool {
        &&& self.bids.len() > 0
        &&& self.asks.len() > 0
        &&& self.bids[0].price >= self.asks[0].price
    }

    /// Index `j` of level `i` of `side` holds an order.
    pub open spec fn located(self, side: OrderSide, i: int, j: int) -> bool {
        0 <= i < self.side(side).len() && 0 <= j < self.side(side)[i].orders.len()
    }

    pub open spec fn id_at(self, side: OrderSide, i: int, j: int) -> u128 {
        self.side(side)[i].orders[j].order_id
    }

    /// No two resting orders share an id.
    pub open spec fn ids_unique(self) -> bool {
        forall|s1: OrderSide, i1: int, j1: int, s2: OrderSide, i2: int, j2: int|
            #![trigger self.id_at(s1, i1, j1), self.id_at(s2, i2, j2)]
            self.located(s1, i1, j1) && self.located(s2, i2, j2) && self.id_at(s1, i1, j1) == self.id_at(
                s2,
                i2,
                j2,
            ) ==> s1 == s2 && i1 == i2 && j1 == j2
    }

    pub open spec fn wf(self) -> bool {
        &&& self.side_wf(OrderSide::Bid, self.bids)
        &&& self.side_wf(OrderSide::Ask, self.asks)
        &&& !self.crossed()
        &&& self.ids_unique()
    }

    /// An order with this id rests on `side`.
    pub open spec fn side_holds(self, side: OrderSide, id: u128) -> bool {
        exists|i: int, j: int|
            0 <= i < self.side(side).len() && 0 <= j < self.side(side)[i].orders.len()
                && (#[trigger] self.side(side)[i].orders[j]).order_id == id
    }

    /// An order with this id rests in the book.
    pub open spec fn holds(self, id: u128) -> bool {
        self.side_holds(OrderSide::Bid, id) || self.side_holds(OrderSide::Ask, id)
    }
}

/// The levels after the order at index `j` of level `i` leaves; the level
/// leaves with it when it was the last.
pub open spec fn remove_at(levels: Seq<LevelModel>, i: int, j: int) -> Seq<LevelModel> {
    if levels[i].orders.len() > 1 {
        levels.update(i, LevelModel { price: levels[i].price, orders: levels[i].orders.remove(j) })
    } else {
        levels.remove(i)
    }
}

/// The levels after `q` units are taken from the oldest order at the best
/// price: the order shrinks, or leaves when nothing is left of it.
pub open spec fn take_front(levels: Seq<LevelModel>, q: u64) -> Seq<LevelModel> {
    let l = levels[0];
    let o = l.orders[0];
    if q < o.qty {
        levels.update(0, LevelModel { price: l.price, orders: l.orders.update(0, Order { qty: (o.qty - q) as u64, ..o }) })
    } else {
        remove_at(levels, 0, 0)
    }
}

/// Index `i` is where price `p` belongs on `side`: every level before it is
/// ahead of `p`, and the level at it (if any) is not.
pub open spec fn placement(side: OrderSide, levels: Seq<LevelModel>, p: u64, i: int) -> bool {
    &&& 0 <= i <= levels.len()
    &&& forall|k: int| 0 <= k < i ==> ahead(side, #[trigger] levels[k].price, p)
    &&& i < levels.len() ==> !ahead(side, levels[i].price, p)
}

/// The levels after `o` is queued at index `i`: at the back of the level
/// there if it has `o`'s price, else in a new level of its own.
pub open spec fn place_at(levels: Seq<LevelModel>, i: int, o: Order) -> Seq<LevelModel> {
    let p = o.price->Some_0;
    if i < levels.len() && levels[i].price == p {
        levels.update(i, LevelModel { price: p, orders: levels[i].orders.push(o) })
    } else {
        levels.insert(i, LevelModel { price: p, orders: seq![o] })
    }
}

/// The levels of `side` after the limit order `o` is queued at its price.
pub open spec fn place(side: OrderSide, levels: Seq<LevelModel>, o: Order) -> Seq<LevelModel> {
    let i = choose|i: int| placement(side, levels, o.price->Some_0, i);
    place_at(levels, i, o)
}

pub proof fn lemma_placement_unique(side: OrderSide, levels: Seq<LevelModel>, p: u64, i: int, k: int)
    requires
        placement(side, levels, p, i),
        placement(side, levels, p, k),
    ensures
        i == k,
{
    if i < k {
        assert(ahead(side, levels[i].price, p));
    } else if k < i {
        assert(ahead(side, levels[k].price, p));
    }
}

pub proof fn lemma_placement_exists(side: OrderSide, levels: Seq<LevelModel>, p: u64)
    ensures
        exists|i: int| placement(side, levels, p, i),
    decreases levels.len(),
{
    if levels.len() == 0 {
        assert(placement(side, levels, p, 0));
    } else if !ahead(side, levels[0].price, p) {
        assert(placement(side, levels, p, 0));
    } else {
        let rest = levels.drop_first();
        lemma_placement_exists(side, rest, p);
        let i = choose|i: int| placement(side, rest, p, i);
        assert forall|k: int| 0 <= k < i + 1 implies ahead(side, #[trigger] levels[k].price, p) by {
            if k > 0 {
                assert(levels[k] == rest[k - 1]);
            }
        }
        assert(placement(side, levels, p, i + 1));
    }
}

/// Placing at the index where a price belongs is what `place` does.
pub proof fn lemma_place_is_place_at(side: OrderSide, levels: Seq<LevelModel>, o: Order, i: int)
    requires
        placement(side, levels, o.price->Some_0, i),
    ensures
        place(side, levels, o) == place_at(levels, i, o),
{
    let k = choose|k: int| placement(side, levels, o.price->Some_0, k);
    lemma_placement_unique(side, levels, o.price->Some_0, i, k);
}

/// A book whose sequence counter moved forward keeps its well-formed sides.
pub proof fn lemma_side_wf_later(m: BookModel, m2: BookModel, side: OrderSide, levels: Seq<LevelModel>)
    requires
        m.side_wf(side, levels),
        m2.order_asset == m.order_asset,
        m2.price_asset == m.price_asset,
        m2.next_sequence >= m.next_sequence,
    ensures
        m2.side_wf(side, levels),
{
    assert forall|i: int| 0 <= i < levels.len() implies m2.level_wf(side, #[trigger] levels[i]) by {
        assert(m.level_wf(side, levels[i]));
        assert forall|j: int| 0 <= j < levels[i].orders.len() implies m2.resting_wf(
            side,
            levels[i].price,
            #[trigger] levels[i].orders[j],
        ) by {
            assert(m.resting_wf(side, levels[i].price, levels[i].orders[j]));
        }
    }
}

/// Where the order at `(a, b)` of `remove_at(levels, i, j)` stood before.
pub open spec fn removal_origin(levels: Seq<LevelModel>, i: int, j: int, a: int, b: int) -> (int, int) {
    if levels[i].orders.len() > 1 {
        if a == i && b >= j {
            (a, b + 1)
        } else {
            (a, b)
        }
    } else if a >= i {
        (a + 1, b)
    } else {
        (a, b)
    }
}

proof fn lemma_removal_origin(m: BookModel, side: OrderSide, i: int, j: int, s: OrderSide, a: int, b: int)
    requires
        m.located(side, i, j),
        m.with_side(side, remove_at(m.side(side), i, j)).located(s, a, b),
    ensures
        s == side ==> m.located(s, removal_origin(m.side(side), i, j, a, b).0, removal_origin(m.side(side), i, j, a, b).1)
            && m.id_at(s, removal_origin(m.side(side), i, j, a, b).0, removal_origin(m.side(side), i, j, a, b).1)
            == m.with_side(side, remove_at(m.side(side), i, j)).id_at(s, a, b),
        s != side ==> m.located(s, a, b) && m.id_at(s, a, b) == m.with_side(side, remove_at(m.side(side), i, j)).id_at(s, a, b),
{
    let levels = m.side(side);
    let m2 = m.with_side(side, remove_at(levels, i, j));
    if s == side {
        assert(m2.side(s) == remove_at(levels, i, j));
        if levels[i].orders.len() > 1 {
            if a == i {
                let nl = levels[i].orders.remove(j);
                if b >= j {
                    assert(nl[b] == levels[i].orders[b + 1]);
                } else {
                    assert(nl[b] == levels[i].orders[b]);
                }
            }
        } else {
            if a >= i {
                assert(remove_at(levels, i, j)[a] == levels[a + 1]);
            } else {
                assert(remove_at(levels, i, j)[a] == levels[a]);
            }
        }
    } else {
        assert(m2.side(s) == m.side(s));
    }
}

proof fn lemma_remove_at_unique(m: BookModel, side: OrderSide, i: int, j: int)
    requires
        m.ids_unique(),
        m.located(side, i, j),
    ensures
        m.with_side(side, remove_at(m.side(side), i, j)).ids_unique(),
{
    let levels = m.side(side);
    let m2 = m.with_side(side, remove_at(levels, i, j));
    assert forall|s1: OrderSide, i1: int, j1: int, s2: OrderSide, i2: int, j2: int|
        m2.located(s1, i1, j1) && m2.located(s2, i2, j2) && #[trigger] m2.id_at(s1, i1, j1) == #[trigger] m2.id_at(
            s2,
            i2,
            j2,
        ) implies s1 == s2 && i1 == i2 && j1 == j2 by {
        lemma_removal_origin(m, side, i, j, s1, i1, j1);
        lemma_removal_origin(m, side, i, j, s2, i2, j2);
        let o1 = if s1 == side {
            removal_origin(levels, i, j, i1, j1)
        } else {
            (i1, j1)
        };
        let o2 = if s2 == side {
            removal_origin(levels, i, j, i2, j2)
        } else {
            (i2, j2)
        };
        assert(m.id_at(s1, o1.0, o1.1) == m.id_at(s2, o2.0, o2.1));
    }
}

/// Removing one resting order keeps the book well formed.
pub proof fn lemma_remove_at_wf(m: BookModel, side: OrderSide, i: int, j: int)
    requires
        m.wf(),
        0 <= i < m.side(side).len(),
        0 <= j < m.side(side)[i].orders.len(),
    ensures
        m.with_side(side, remove_at(m.side(side), i, j)).wf(),
{
    let levels = m.side(side);
    let t = remove_at(levels, i, j);
    let m2 = m.with_side(side, t);
    let l = levels[i];
    assert(m.level_wf(side, l));
    if l.orders.len() > 1 {
        let nl = LevelModel { price: l.price, orders: l.orders.remove(j) };
        assert forall|k: int| 0 <= k < nl.orders.len() implies m.resting_wf(side, nl.price, #[trigger] nl.orders[k]) by {
            if k < j {
                assert(nl.orders[k] == l.orders[k]);
            } else {
                assert(nl.orders[k] == l.orders[k + 1]);
            }
        }
        assert forall|a: int, b: int| 0 <= a < b < nl.orders.len() implies nl.orders[a].sequence
            < nl.orders[b].sequence by {
            if b < j {
            } else if a < j {
                assert(nl.orders[b] == l.orders[b + 1]);
            } else {
                assert(nl.orders[a] == l.orders[a + 1]);
                assert(nl.orders[b] == l.orders[b + 1]);
            }
        }
        assert(m.level_wf(side, nl));
        assert forall|a: int| 0 <= a < t.len() implies m.level_wf(side, #[trigger] t[a]) by {
            if a != i {
                assert(m.level_wf(side, levels[a]));
            }
        }
        assert forall|a: int, b: int| 0 <= a < b < t.len() implies ahead(side, t[a].price, t[b].price) by {
            assert(t[a].price == levels[a].price && t[b].price == levels[b].price);
        }
    } else {
        assert forall|a: int| 0 <= a < t.len() implies m.level_wf(side, #[trigger] t[a]) by {
            if a < i {
                assert(t[a] == levels[a]);
            } else {
                assert(t[a] == levels[a + 1]);
            }
        }
        assert forall|a: int, b: int| 0 <= a < b < t.len() implies ahead(side, t[a].price, t[b].price) by {
            if b < i {
                assert(t[a] == levels[a] && t[b] == levels[b]);
            } else if a < i {
                assert(t[a] == levels[a] && t[b] == levels[b + 1]);
                assert(ahead(side, levels[a].price, levels[b + 1].price));
            } else {
                assert(t[a] == levels[a + 1] && t[b] == levels[b + 1]);
                assert(ahead(side, levels[a + 1].price, levels[b + 1].price));
            }
        }
        if t.len() > 0 {
            if i == 0 {
                assert(t[0] == levels[1]);
                assert(ahead(side, levels[0].price, levels[1].price));
            } else {
                assert(t[0] == levels[0]);
            }
        }
    }
    assert(m2.side_wf(side, m2.side(side)));
    assert(m2.side_wf(side.spec_opposite(), m2.side(side.spec_opposite())));
    lemma_remove_at_unique(m, side, i, j);
}

/// Taking from the front of a side keeps the book well formed.
pub proof fn lemma_take_front_wf(m: BookModel, side: OrderSide, q: u64)
    requires
        m.wf(),
        m.side(side).len() > 0,
        0 < q <= m.side(side)[0].orders[0].qty,
    ensures
        m.with_side(side, take_front(m.side(side), q)).wf(),
{
    let levels = m.side(side);
    let t = take_front(levels, q);
    let m2 = m.with_side(side, t);
    assert(m.level_wf(side, levels[0]));
    let l = levels[0];
    let o = l.orders[0];
    if q < o.qty {
        let nl = LevelModel { price: l.price, orders: l.orders.update(0, Order { qty: (o.qty - q) as u64, ..o }) };
        assert(m.resting_wf(side, l.price, o));
        assert forall|j: int| 0 <= j < nl.orders.len() implies m.resting_wf(side, nl.price, #[trigger] nl.orders[j]) by {
            if j > 0 {
                assert(m.resting_wf(side, l.price, l.orders[j]));
            }
        }
        assert(m.level_wf(side, nl));
        assert forall|i: int| 0 <= i < t.len() implies m.level_wf(side, #[trigger] t[i]) by {
            if i > 0 {
                assert(m.level_wf(side, levels[i]));
            }
        }
        assert forall|a: int, b: int| 0 <= a < b < t.len() implies ahead(side, t[a].price, t[b].price) by {
            assert(t[a].price == levels[a].price && t[b].price == levels[b].price);
        }
        assert(m2.side_wf(side, m2.side(side)));
        assert(m2.side_wf(side.spec_opposite(), m2.side(side.spec_opposite())));
        assert forall|s1: OrderSide, i1: int, j1: int|
            m2.located(s1, i1, j1) implies m.located(s1, i1, j1) && #[trigger] m2.id_at(s1, i1, j1) == m.id_at(
                s1,
                i1,
                j1,
            ) by {
            if s1 == side && i1 == 0 {
                assert(m2.side(s1)[0] == nl);
            }
        }
        assert forall|s1: OrderSide, i1: int, j1: int, s2: OrderSide, i2: int, j2: int|
            m2.located(s1, i1, j1) && m2.located(s2, i2, j2) && #[trigger] m2.id_at(s1, i1, j1)
                == #[trigger] m2.id_at(s2, i2, j2) implies s1 == s2 && i1 == i2 && j1 == j2 by {
            assert(m.id_at(s1, i1, j1) == m.id_at(s2, i2, j2));
        }
    } else {
        lemma_remove_at_wf(m, side, 0, 0);
    }
}

/// On `side`, an order limited to `limit` may trade at `price`.
pub open spec fn reaches(side: OrderSide, limit: u64, price: u64) -> bool {
    match side {
        OrderSide::Bid => price <= limit,
        OrderSide::Ask => price >= limit,
    }
}

/// Queuing a limit order at its place keeps the book well formed, when the
/// order cannot trade with the best price across and takes the next
/// sequence number.
pub proof fn lemma_place_wf(m: BookModel, o: Order, i: int)
    requires
        m.wf(),
        m.next_sequence < u64::MAX,
        o.qty > 0,
        o.order_type == OrderType::Limit,
        o.price is Some,
        o.order_asset == m.order_asset,
        o.price_asset == m.price_asset,
        o.sequence == m.next_sequence,
        !m.holds(o.order_id),
        placement(o.side, m.side(o.side), o.price->Some_0, i),
        m.side(o.side.spec_opposite()).len() == 0 || !reaches(
            o.side,
            o.price->Some_0,
            m.side(o.side.spec_opposite())[0].price,
        ),
    ensures
        (BookModel {
            next_sequence: (m.next_sequence + 1) as u64,
            ..m.with_side(o.side, place_at(m.side(o.side), i, o))
        }).wf(),
{
    let side = o.side;
    let p = o.price->Some_0;
    let levels = m.side(side);
    let m1 = BookModel { next_sequence: (m.next_sequence + 1) as u64, ..m };
    lemma_side_wf_later(m, m1, OrderSide::Bid, m.bids);
    lemma_side_wf_later(m, m1, OrderSide::Ask, m.asks);
    let t = place_at(levels, i, o);
    let m2 = m1.with_side(side, t);
    assert(m1.resting_wf(side, p, o));
    if i < levels.len() && levels[i].price == p {
        let l = levels[i];
        let nl = LevelModel { price: p, orders: l.orders.push(o) };
        assert(m1.level_wf(side, l));
        assert forall|j: int| 0 <= j < nl.orders.len() implies m1.resting_wf(side, p, #[trigger] nl.orders[j]) by {
            if j < l.orders.len() {
                assert(m1.resting_wf(side, p, l.orders[j]));
            }
        }
        assert forall|j: int, k: int| 0 <= j < k < nl.orders.len() implies nl.orders[j].sequence
            < nl.orders[k].sequence by {
            if k < l.orders.len() {
            } else {
                assert(m.resting_wf(side, p, l.orders[j])) by {
                    assert(m.level_wf(side, levels[i]));
                }
            }
        }
        assert(m1.level_wf(side, nl));
        assert forall|a: int| 0 <= a < t.len() implies m1.level_wf(side, #[trigger] t[a]) by {
            if a != i {
                assert(m1.level_wf(side, levels[a]));
            }
        }
        if i == 0 {
            assert(t[0].price == levels[0].price);
        }
    } else {
        let nl = LevelModel { price: p, orders: seq![o] };
        assert(m1.level_wf(side, nl));
        assert forall|a: int| 0 <= a < t.len() implies m1.level_wf(side, #[trigger] t[a]) by {
            if a < i {
                assert(t[a] == levels[a]);
                assert(m1.level_wf(side, levels[a]));
            } else if a > i {
                assert(t[a] == levels[a - 1]);
                assert(m1.level_wf(side, levels[a - 1]));
            }
        }
        assert forall|a: int, b: int| 0 <= a < b < t.len() implies ahead(side, t[a].price, t[b].price) by {
            if b < i {
                assert(t[a] == levels[a] && t[b] == levels[b]);
            } else if b == i {
                assert(t[a] == levels[a]);
                assert(ahead(side, levels[a].price, p));
            } else if a == i {
                assert(t[b] == levels[b - 1]);
                assert(!ahead(side, levels[i].price, p));
                if b - 1 > i {
                    assert(ahead(side, levels[i].price, levels[b - 1].price));
                }
            } else if a < i {
                assert(t[a] == levels[a] && t[b] == levels[b - 1]);
                assert(ahead(side, levels[a].price, p));
                if i < levels.len() {
                    assert(!ahead(side, levels[i].price, p));
                    if b - 1 > i {
                        assert(ahead(side, levels[i].price, levels[b - 1].price));
                    }
                }
            } else {
                assert(t[a] == levels[a - 1] && t[b] == levels[b - 1]);
            }
        }
        if i > 0 {
            assert(t[0] == levels[0]);
        }
    }
    assert(m2.side_wf(side, m2.side(side)));
    assert(m2.side_wf(side.spec_opposite(), m2.side(side.spec_opposite())));
    if side == OrderSide::Bid && m2.asks.len() > 0 && m2.bids.len() > 0 {
        if i > 0 {
            assert(m2.bids[0] == levels[0]);
        }
    }
    if side == OrderSide::Ask && m2.asks.len() > 0 && m2.bids.len() > 0 {
        if i > 0 {
            assert(m2.asks[0] == levels[0]);
        }
    }
    lemma_place_unique(m, o, i);
    lemma_unique_same_sides(m.with_side(side, t), m2);
}

proof fn lemma_unique_same_sides(a: BookModel, b: BookModel)
    requires
        a.ids_unique(),
        a.bids == b.bids,
        a.asks == b.asks,
    ensures
        b.ids_unique(),
{
    assert forall|s1: OrderSide, i1: int, j1: int, s2: OrderSide, i2: int, j2: int|
        b.located(s1, i1, j1) && b.located(s2, i2, j2) && #[trigger] b.id_at(s1, i1, j1) == #[trigger] b.id_at(
            s2,
            i2,
            j2,
        ) implies s1 == s2 && i1 == i2 && j1 == j2 by {
        assert(a.side(s1) == b.side(s1) && a.side(s2) == b.side(s2));
        assert(a.id_at(s1, i1, j1) == a.id_at(s2, i2, j2));
    }
}

/// Where the order at `(a, b)` of `place_at(levels, i, o)` stood before;
/// `None` for `o` itself.
pub open spec fn placement_origin(levels: Seq<LevelModel>, i: int, o: Order, a: int, b: int) -> Option<(int, int)> {
    if i < levels.len() && levels[i].price == o.price->Some_0 {
        if a == i && b == levels[i].orders.len() {
            None
        } else {
            Some((a, b))
        }
    } else if a == i {
        None
    } else if a > i {
        Some((a - 1, b))
    } else {
        Some((a, b))
    }
}

proof fn lemma_placement_origin(m: BookModel, o: Order, i: int, s: OrderSide, a: int, b: int)
    requires
        0 <= i <= m.side(o.side).len(),
        o.price is Some,
        m.with_side(o.side, place_at(m.side(o.side), i, o)).located(s, a, b),
    ensures
        s == o.side ==> match placement_origin(m.side(o.side), i, o, a, b) {
            None => m.with_side(o.side, place_at(m.side(o.side), i, o)).id_at(s, a, b) == o.order_id,
            Some((a2, b2)) => m.located(s, a2, b2) && m.id_at(s, a2, b2) == m.with_side(
                o.side,
                place_at(m.side(o.side), i, o),
            ).id_at(s, a, b),
        },
        s != o.side ==> m.located(s, a, b) && m.id_at(s, a, b) == m.with_side(o.side, place_at(m.side(o.side), i, o)).id_at(
            s,
            a,
            b,
        ),
{
    let levels = m.side(o.side);
    let t = place_at(levels, i, o);
    let m2 = m.with_side(o.side, t);
    if s == o.side {
        assert(m2.side(s) == t);
        if i < levels.len() && levels[i].price == o.price->Some_0 {
            if a == i {
                assert(t[a].orders == levels[i].orders.push(o));
            } else {
                assert(t[a] == levels[a]);
            }
        } else {
            if a < i {
                assert(t[a] == levels[a]);
            } else if a > i {
                assert(t[a] == levels[a - 1]);
            }
        }
    } else {
        assert(m2.side(s) == m.side(s));
    }
}

proof fn lemma_place_unique(m: BookModel, o: Order, i: int)
    requires
        m.ids_unique(),
        !m.holds(o.order_id),
        0 <= i <= m.side(o.side).len(),
        o.price is Some,
    ensures
        m.with_side(o.side, place_at(m.side(o.side), i, o)).ids_unique(),
{
    let levels = m.side(o.side);
    let m2 = m.with_side(o.side, place_at(levels, i, o));
    assert forall|s1: OrderSide, i1: int, j1: int, s2: OrderSide, i2: int, j2: int|
        m2.located(s1, i1, j1) && m2.located(s2, i2, j2) && #[trigger] m2.id_at(s1, i1, j1) == #[trigger] m2.id_at(
            s2,
            i2,
            j2,
        ) implies s1 == s2 && i1 == i2 && j1 == j2 by {
        lemma_placement_origin(m, o, i, s1, i1, j1);
        lemma_placement_origin(m, o, i, s2, i2, j2);
        let p1 = if s1 == o.side {
            placement_origin(levels, i, o, i1, j1)
        } else {
            Some((i1, j1))
        };
        let p2 = if s2 == o.side {
            placement_origin(levels, i, o, i2, j2)
        } else {
            Some((i2, j2))
        };
        match p1 {
            Some((a1, b1)) => {
                assert(m.located(s1, a1, b1));
                if m.id_at(s1, a1, b1) == o.order_id {
                    assert(m.side_holds(s1, o.order_id)) by {
                        assert(m.side(s1)[a1].orders[b1].order_id == o.order_id);
                    }
                    assert(m.holds(o.order_id)) by {
                        if s1 == OrderSide::Bid {
                        } else {
                        }
                    }
                }
                match p2 {
                    Some((a2, b2)) => {
                        assert(m.id_at(s1, a1, b1) == m.id_at(s2, a2, b2));
                    },
                    None => {},
                }
            },
            None => {
                match p2 {
                    Some((a2, b2)) => {
                        assert(m.located(s2, a2, b2));
                        assert(m.side(s2)[a2].orders[b2].order_id == o.order_id);
                        assert(m.side_holds(s2, o.order_id));
                    },
                    None => {},
                }
            },
        }
    }
}

/// Whether, on `side`, price `a` is matched before price `b`.
pub fn is_ahead(side: OrderSide, a: u64, b: u64) -> (r: bool)
    ensures
        r == ahead(side, a, b),
{
    match side {
        OrderSide::Bid => a > b,
        OrderSide::Ask => a < b,
    }
}

/// Whether, on `side`, an order limited to `limit` may trade at `price`.
pub fn price_reaches(side: OrderSide, limit: u64, price: u64) -> (r: bool)
    ensures
        r == reaches(side, limit, price),
{
    match side {
        OrderSide::Bid => price <= limit,
        OrderSide::Ask => price >= limit,
    }
}

fn remove_from_levels(levels: &mut Vec<PriceLevel>, i: usize, j: usize) -> (r: Order)
    requires
        i < old(levels)@.len(),
        j < old(levels)@[i as int].orders@.len(),
    ensures
        r == old(levels)@[i as int].orders@[j as int],
        levels_view(final(levels)@) == remove_at(levels_view(old(levels)@), i as int, j as int),
{
    let ghost before = levels@;
    let mut level = levels.remove(i);
    let r = level.orders.remove(j);
    if level.orders.len() > 0 {
        levels.insert(i, level);
        assert(levels_view(levels@) =~= remove_at(levels_view(before), i as int, j as int));
    } else {
        assert(levels_view(levels@) =~= remove_at(levels_view(before), i as int, j as int));
    }
    r
}

fn take_from_levels(levels: &mut Vec<PriceLevel>, q: u64)
    requires
        old(levels)@.len() > 0,
        old(levels)@[0].orders@.len() > 0,
        q <= old(levels)@[0].orders@[0].qty,
    ensures
        levels_view(final(levels)@) == take_front(levels_view(old(levels)@), q),
{
    let ghost before = levels@;
    let o = levels[0].orders[0];
    if q < o.qty {
        let mut level = levels.remove(0);
        level.orders.set(0, Order { qty: o.qty - q, ..o });
        levels.insert(0, level);
        assert(levels_view(levels@) =~= take_front(levels_view(before), q));
    } else {
        remove_from_levels(levels, 0, 0);
    }
}

fn place_in_levels(levels: &mut Vec<PriceLevel>, side: OrderSide, o: Order) -> (i: usize)
    requires
        o.price is Some,
    ensures
        placement(side, levels_view(old(levels)@), o.price->Some_0, i as int),
        levels_view(final(levels)@) == place_at(levels_view(old(levels)@), i as int, o),
{
    let ghost before = levels@;
    let p = match o.price {
        Some(p) => p,
        None => 0,
    };
    let mut i: usize = 0;
    while i < levels.len() && is_ahead(side, levels[i].price, p)
        invariant
            o.price == Some(p),
            levels@ == before,
            i <= levels@.len(),
            forall|k: int| 0 <= k < i ==> ahead(side, #[trigger] levels_view(before)[k].price, p),
        decreases levels@.len() - i,
    {
        i = i + 1;
    }
    if i < levels.len() && levels[i].price == p {
        let mut level = levels.remove(i);
        level.orders.push(o);
        levels.insert(i, level);
    } else {
        let mut orders: Vec<Order> = Vec::new();
        orders.push(o);
        levels.insert(i, PriceLevel { price: p, orders });
    }
    assert(levels_view(levels@) =~= place_at(levels_view(before), i as int, o));
    i
}

fn find_in_levels(levels: &Vec<PriceLevel>, id: u128) -> (r: Option<(usize, usize)>)
    ensures
        match r {
            Some((i, j)) => i < levels@.len() && j < levels@[i as int].orders@.len()
                && levels@[i as int].orders@[j as int].order_id == id,
            None => forall|i: int, j: int|
                0 <= i < levels@.len() && 0 <= j < levels@[i].orders@.len()
                    ==> (#[trigger] levels_view(levels@)[i].orders[j]).order_id != id,
        },
{
    let mut i: usize = 0;
    while i < levels.len()
        invariant
            i <= levels@.len(),
            forall|a: int, j: int|
                0 <= a < i && 0 <= j < levels@[a].orders@.len()
                    ==> (#[trigger] levels_view(levels@)[a].orders[j]).order_id != id,
        decreases levels@.len() - i,
    {
        let orders = &levels[i].orders;
        let mut j: usize = 0;
        while j < orders.len()
            invariant
                i < levels@.len(),
                orders@ == levels@[i as int].orders@,
                j <= orders@.len(),
                forall|a: int, b: int|
                    0 <= a < i && 0 <= b < levels@[a].orders@.len()
                        ==> (#[trigger] levels_view(levels@)[a].orders[b]).order_id != id,
                forall|b: int| 0 <= b < j ==> (#[trigger] orders@[b]).order_id != id,
            decreases orders@.len() - j,
        {
            if orders[j].order_id == id {
                return Some((i, j));
            }
            j = j + 1;
        }
        assert forall|a: int, b: int|
            0 <= a < i + 1 && 0 <= b < levels@[a].orders@.len() implies (
            #[trigger] levels_view(levels@)[a].orders[b]).order_id != id by {
            if a == i {
                assert(levels_view(levels@)[a].orders[b] == orders@[b]);
            }
        }
        i = i + 1;
    }
    None
}

/// The resting orders of one asset pair.
pub struct OrderBook {
    order_asset: BrokerAsset,
    price_asset: BrokerAsset,
    bids: Vec<PriceLevel>,
    asks: Vec<PriceLevel>,
    next_sequence: u64,
}

impl View for OrderBook {
    type V = BookModel;

    closed spec fn view(&self) -> BookModel {
        BookModel {
            order_asset: self.order_asset,
            price_asset: self.price_asset,
            bids: levels_view(self.bids@),
            asks: levels_view(self.asks@),
            next_sequence: self.next_sequence,
        }
    }
}

impl OrderBook {
    /// An empty book for the pair; the first resting order gets sequence 1.
    pub fn new(order_asset: BrokerAsset, price_asset: BrokerAsset) -> (r: OrderBook)
        ensures
            r@ == (BookModel { order_asset, price_asset, bids: seq![], asks: seq![], next_sequence: 1 }),
            r@.wf(),
    {
        let r = OrderBook { order_asset, price_asset, bids: Vec::new(), asks: Vec::new(), next_sequence: 1 };
        assert(r@.bids =~= seq![]);
        assert(r@.asks =~= seq![]);
        r
    }

    pub fn order_asset(&self) -> (r: BrokerAsset)
        ensures
            r == self@.order_asset,
    {
        self.order_asset
    }

    pub fn price_asset(&self) -> (r: BrokerAsset)
        ensures
            r == self@.price_asset,
    {
        self.price_asset
    }

    pub fn next_sequence(&self) -> (r: u64)
        ensures
            r == self@.next_sequence,
    {
        self.next_sequence
    }

    fn levels(&self, side: OrderSide) -> (r: &Vec<PriceLevel>)
        ensures
            levels_view(r@) == self@.side(side),
    {
        match side {
            OrderSide::Bid => &self.bids,
            OrderSide::Ask => &self.asks,
        }
    }

    /// The number of price levels on a side.
    pub fn depth(&self, side: OrderSide) -> (r: usize)
        ensures
            r == self@.side(side).len(),
    {
        self.levels(side).len()
    }

    /// The level of the highest bid price, if any.
    pub fn best_bid(&self) -> (r: Option<&PriceLevel>)
        ensures
            match r {
                Some(l) => self@.bids.len() > 0 && l@ == self@.bids[0],
                None => self@.bids.len() == 0,
            },
    {
        if self.bids.len() > 0 {
            Some(&self.bids[0])
        } else {
            None
        }
    }

    /// The level of the lowest ask price, if any.
    pub fn best_ask(&self) -> (r: Option<&PriceLevel>)
        ensures
            match r {
                Some(l) => self@.asks.len() > 0 && l@ == self@.asks[0],
                None => self@.asks.len() == 0,
            },
    {
        if self.asks.len() > 0 {
            Some(&self.asks[0])
        } else {
            None
        }
    }

    /// The best price of a side and the oldest order resting there.
    pub fn front(&self, side: OrderSide) -> (r: Option<(u64, Order)>)
        requires
            self@.wf(),
        ensures
            match r {
                Some((p, o)) => self@.side(side).len() > 0 && p == self@.side(side)[0].price
                    && o == self@.side(side)[0].orders[0],
                None => self@.side(side).len() == 0,
            },
    {
        let levels = self.levels(side);
        if levels.len() > 0 {
            proof {
                assert(self@.level_wf(side, self@.side(side)[0]));
            }
            Some((levels[0].price, levels[0].orders[0]))
        } else {
            None
        }
    }

    /// Takes `q` units from the oldest order at the best price of `side`.
    pub fn fill_front(&mut self, side: OrderSide, q: u64)
        requires
            old(self)@.wf(),
            old(self)@.side(side).len() > 0,
            0 < q <= old(self)@.side(side)[0].orders[0].qty,
        ensures
            final(self)@ == old(self)@.with_side(side, take_front(old(self)@.side(side), q)),
            final(self)@.wf(),
    {
        proof {
            assert(old(self)@.level_wf(side, old(self)@.side(side)[0]));
            lemma_take_front_wf(old(self)@, side, q);
        }
        match side {
            OrderSide::Bid => take_from_levels(&mut self.bids, q),
            OrderSide::Ask => take_from_levels(&mut self.asks, q),
        }
    }

    /// Removes the oldest order at the best price of `side`, and the level
    /// with it when it was the last there.
    pub fn remove_front_of(&mut self, side: OrderSide) -> (r: Order)
        requires
            old(self)@.wf(),
            old(self)@.side(side).len() > 0,
        ensures
            r == old(self)@.side(side)[0].orders[0],
            final(self)@ == old(self)@.with_side(side, remove_at(old(self)@.side(side), 0, 0)),
            final(self)@.wf(),
    {
        proof {
            assert(old(self)@.level_wf(side, old(self)@.side(side)[0]));
            lemma_remove_at_wf(old(self)@, side, 0, 0);
        }
        match side {
            OrderSide::Bid => remove_from_levels(&mut self.bids, 0, 0),
            OrderSide::Ask => remove_from_levels(&mut self.asks, 0, 0),
        }
    }

    /// Queues a limit order at the back of its price level, creating the
    /// level if needed, under the next sequence number, which it returns.
    /// Nothing is matched: the order must not reach the best price across.
    pub fn insert(&mut self, order: Order) -> (sequence: u64)
        requires
            old(self)@.wf(),
            old(self)@.next_sequence < u64::MAX,
            order.qty > 0,
            order.order_type == OrderType::Limit,
            order.price is Some,
            order.order_asset == old(self)@.order_asset,
            order.price_asset == old(self)@.price_asset,
            !old(self)@.holds(order.order_id),
            old(self)@.side(order.side.spec_opposite()).len() == 0 || !reaches(
                order.side,
                order.price->Some_0,
                old(self)@.side(order.side.spec_opposite())[0].price,
            ),
        ensures
            sequence == old(self)@.next_sequence,
            final(self)@ == (BookModel {
                next_sequence: (old(self)@.next_sequence + 1) as u64,
                ..old(self)@.with_side(
                    order.side,
                    place(order.side, old(self)@.side(order.side), Order { sequence, ..order }),
                )
            }),
            final(self)@.wf(),
    {
        let sequence = self.next_sequence;
        let placed = Order { sequence, ..order };
        let i = match order.side {
            OrderSide::Bid => place_in_levels(&mut self.bids, OrderSide::Bid, placed),
            OrderSide::Ask => place_in_levels(&mut self.asks, OrderSide::Ask, placed),
        };
        self.next_sequence = sequence + 1;
        proof {
            lemma_place_is_place_at(order.side, old(self)@.side(order.side), placed, i as int);
            lemma_place_wf(old(self)@, placed, i as int);
        }
        sequence
    }

    /// Whether an order with this id rests in the book.
    pub fn contains_order(&self, order_id: u128) -> (r: bool)
        ensures
            r == self@.holds(order_id),
    {
        self.lookup(order_id).is_some()
    }

    /// The side, price and sequence number of the resting order with this id.
    pub fn lookup(&self, order_id: u128) -> (r: Option<(OrderSide, u64, u64)>)
        ensures
            match r {
                Some((s, p, q)) => exists|i: int, j: int|
                    0 <= i < self@.side(s).len() && 0 <= j < self@.side(s)[i].orders.len()
                        && #[trigger] self@.side(s)[i].orders[j].order_id == order_id
                        && self@.side(s)[i].price == p && self@.side(s)[i].orders[j].sequence == q,
                None => !self@.holds(order_id),
            },
    {
        match find_in_levels(&self.bids, order_id) {
            Some((i, j)) => {
                let o = self.bids[i].orders[j];
                proof {
                    assert(self@.side(OrderSide::Bid)[i as int].orders[j as int] == o);
                }
                return Some((OrderSide::Bid, self.bids[i].price, o.sequence));
            },
            None => {},
        }
        match find_in_levels(&self.asks, order_id) {
            Some((i, j)) => {
                let o = self.asks[i].orders[j];
                proof {
                    assert(self@.side(OrderSide::Ask)[i as int].orders[j as int] == o);
                }
                Some((OrderSide::Ask, self.asks[i].price, o.sequence))
            },
            None => None,
        }
    }

    /// Removes the resting order with this id, and its level when it was
    /// the last there.
    pub fn cancel(&mut self, order_id: u128) -> (r: Result<Order, Failed>)
        requires
            old(self)@.wf(),
        ensures
            final(self)@.wf(),
            match r {
                Ok(o) => o.order_id == order_id && exists|i: int, j: int|
                    0 <= i < old(self)@.side(o.side).len() && 0 <= j < old(self)@.side(o.side)[i].orders.len()
                        && #[trigger] old(self)@.side(o.side)[i].orders[j] == o
                        && final(self)@ == old(self)@.with_side(o.side, remove_at(old(self)@.side(o.side), i, j)),
                Err(e) => e == Failed::OrderNotFound { order_id } && !old(self)@.holds(order_id)
                    && final(self)@ == old(self)@,
            },
    {
        match find_in_levels(&self.bids, order_id) {
            Some((i, j)) => {
                proof {
                    assert(old(self)@.level_wf(OrderSide::Bid, old(self)@.bids[i as int]));
                    lemma_remove_at_wf(old(self)@, OrderSide::Bid, i as int, j as int);
                }
                let o = remove_from_levels(&mut self.bids, i, j);
                proof {
                    assert(old(self)@.bids[i as int].orders[j as int] == o);
                }
                return Ok(o);
            },
            None => {},
        }
        match find_in_levels(&self.asks, order_id) {
            Some((i, j)) => {
                proof {
                    assert(old(self)@.level_wf(OrderSide::Ask, old(self)@.asks[i as int]));
                    lemma_remove_at_wf(old(self)@, OrderSide::Ask, i as int, j as int);
                }
                let o = remove_from_levels(&mut self.asks, i, j);
                proof {
                    assert(old(self)@.asks[i as int].orders[j as int] == o);
                }
                Ok(o)
            },
            None => Err(Failed::OrderNotFound { order_id }),
        }
    }
}

} // verus!

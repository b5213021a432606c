use vstd::prelude::*;
use std::collections::{HashMap, VecDeque};
use crate::types::{min_qty, OrderId, Price, Quantity, Volume};
use crate::order::Order;
use crate::ordertypes::OrderType;
use crate::side::Side;
use crate::trade::{Trade, TradeInfo};

verus! {

/// Where the identity index says an order lives: the side and the price of
/// its level. Its place within the level is found there, so no entry goes
/// stale when orders ahead of it leave.
#[derive(Clone, Copy, Debug, PartialEq, Eq, Structural)]
pub struct Locator {
    pub side: Side,
    pub price: Price,
}

/// The orders resting at one price, oldest first.
pub struct PriceLevel {
    pub price: Price,
    pub orders: VecDeque<Order>,
}

pub struct LevelView {
    pub price: Price,
    pub orders: Seq<Order>,
}

impl View for PriceLevel {
    type V = LevelView;

    open spec fn view(&self) -> LevelView {
        LevelView { price: self.price, orders: self.orders@ }
    }
}

/// One side of the book as a sequence of levels, best first.
pub open spec fn side_view(v: Seq<PriceLevel>) -> Seq<LevelView> {
    v.map_values(|l: PriceLevel| l@)
}

/// `a` is a strictly better price than `b` for orders resting on `side`.
pub open spec fn better(side: Side, a: Price, b: Price) -> bool {
    match side {
        Side::Buy => a > b,
        Side::Sell => a < b,
    }
}

pub open spec fn valid_pos(levels: Seq<LevelView>, i: int, j: int) -> bool {
    0 <= i < levels.len() && 0 <= j < levels[i].orders.len()
}

/// What every order resting at `price` on `side` satisfies.
pub open spec fn resting_ok(o: Order, side: Side, price: Price) -> bool {
    &&& o.side == side
    &&& o.price == price
    &&& o.order_type == OrderType::GoodTillCancel
    &&& 0 < o.remaining_quantity <= o.initial_quantity
}

/// Levels sorted best first with distinct prices, none empty, each holding
/// live limit orders of its side and price, and no order id twice.
pub open spec fn side_wf(levels: Seq<LevelView>, side: Side) -> bool {
    &&& forall|i: int, j: int|
        0 <= i < j < levels.len() ==> better(side, #[trigger] levels[i].price, #[trigger] levels[j].price)
    &&& forall|i: int| 0 <= i < levels.len() ==> #[trigger] levels[i].orders.len() > 0
    &&& forall|i: int, j: int|
        valid_pos(levels, i, j) ==> resting_ok(#[trigger] levels[i].orders[j], side, levels[i].price)
    &&& forall|i1: int, j1: int, i2: int, j2: int|
        valid_pos(levels, i1, j1) && valid_pos(levels, i2, j2)
            && (#[trigger] levels[i1].orders[j1]).order_id == (#[trigger] levels[i2].orders[j2]).order_id
            ==> i1 == i2 && j1 == j2
}

pub open spec fn side_has(levels: Seq<LevelView>, id: OrderId) -> bool {
    exists|i: int, j: int| valid_pos(levels, i, j) && (#[trigger] levels[i].orders[j]).order_id == id
}

/// Number of orders on a side.
pub open spec fn side_count(levels: Seq<LevelView>) -> nat
    decreases levels.len(),
{
    if levels.len() == 0 {
        0
    } else {
        levels[0].orders.len() + side_count(levels.drop_first())
    }
}

/// Sum of the remaining quantities of a sequence of orders.
pub open spec fn volume(orders: Seq<Order>) -> nat
    decreases orders.len(),
{
    if orders.len() == 0 {
        0
    } else {
        volume(orders.drop_last()) + orders.last().remaining_quantity as nat
    }
}

/// The side without the order at `(i, j)`; a level left empty is dropped.
pub open spec fn remove_at(levels: Seq<LevelView>, i: int, j: int) -> Seq<LevelView> {
    let rest = levels[i].orders.remove(j);
    if rest.len() == 0 {
        levels.remove(i)
    } else {
        levels.update(i, LevelView { price: levels[i].price, orders: rest })
    }
}

/// The side after `q` units of the first order of its best level traded.
pub open spec fn fill_front(levels: Seq<LevelView>, q: Quantity) -> Seq<LevelView> {
    let o = levels[0].orders[0];
    if o.remaining_quantity == q {
        remove_at(levels, 0, 0)
    } else {
        levels.update(0, LevelView { price: levels[0].price, orders: levels[0].orders.update(0, o.filled_by(q)) })
    }
}

/// `k` is where the level at price `p` stands, or would be inserted.
pub open spec fn is_slot(levels: Seq<LevelView>, side: Side, p: Price, k: int) -> bool {
    &&& 0 <= k <= levels.len()
    &&& forall|m: int| 0 <= m < k ==> better(side, #[trigger] levels[m].price, p)
    &&& k < levels.len() ==> !better(side, levels[k].price, p)
}

pub open spec fn slot(levels: Seq<LevelView>, side: Side, p: Price) -> int {
    choose|k: int| is_slot(levels, side, p, k)
}

/// The side with `o` appended at the tail of the level at slot `k`, or in a
/// new level there if none holds its price.
pub open spec fn rest_at(levels: Seq<LevelView>, o: Order, k: int) -> Seq<LevelView> {
    if k < levels.len() && levels[k].price == o.price {
        levels.update(k, LevelView { price: o.price, orders: levels[k].orders.push(o) })
    } else {
        levels.insert(k, LevelView { price: o.price, orders: seq![o] })
    }
}

/// The side with `o` resting last in time priority at its price.
pub open spec fn rest(levels: Seq<LevelView>, side: Side, o: Order) -> Seq<LevelView> {
    rest_at(levels, o, slot(levels, side, o.price))
}

/// An incoming order may trade with a resting one at `price`.
pub open spec fn reaches(taker: Order, price: Price) -> bool {
    match taker.order_type {
        OrderType::Market => true,
        _ => match taker.side {
            Side::Buy => price <= taker.price,
            Side::Sell => price >= taker.price,
        },
    }
}

/// The trade of `q` units between an incoming order and a resting one. Each
/// fill carries its own order's price; a market order, having none, takes
/// the resting order's.
pub open spec fn trade_between(taker: Order, maker: Order, q: Quantity) -> Trade {
    let taker_price = if taker.order_type == OrderType::Market { maker.price } else { taker.price };
    let t = TradeInfo { order_id: taker.order_id, price: taker_price, quantity: q };
    let m = TradeInfo { order_id: maker.order_id, price: maker.price, quantity: q };
    if taker.side == Side::Buy {
        Trade { bid_trade: t, ask_trade: m }
    } else {
        Trade { bid_trade: m, ask_trade: t }
    }
}

/// Matches an incoming order against a side, best level first and oldest
/// order first within a level, until it is filled or nothing reachable is
/// left. Gives the trades in execution order, the side afterwards, and what
/// is left of the incoming order.
pub open spec fn sweep(levels: Seq<LevelView>, taker: Order) -> (Seq<Trade>, Seq<LevelView>, Order)
    decreases taker.remaining_quantity,
{
    if levels.len() == 0 || levels[0].orders.len() == 0 || !reaches(taker, levels[0].price) {
        (seq![], levels, taker)
    } else {
        let maker = levels[0].orders[0];
        let q = min_qty(taker.remaining_quantity, maker.remaining_quantity);
        if q == 0 {
            (seq![], levels, taker)
        } else {
            let next = sweep(fill_front(levels, q), taker.filled_by(q));
            (seq![trade_between(taker, maker, q)] + next.0, next.1, next.2)
        }
    }
}


pub proof fn lemma_count_update(levels: Seq<LevelView>, i: int, l: LevelView)
    requires
        0 <= i < levels.len(),
    ensures
        side_count(levels.update(i, l)) + levels[i].orders.len() == side_count(levels) + l.orders.len(),
    decreases levels.len(),
{
    if i > 0 {
        assert(levels.update(i, l).drop_first() =~= levels.drop_first().update(i - 1, l));
        lemma_count_update(levels.drop_first(), i - 1, l);
    } else {
        assert(levels.update(i, l).drop_first() =~= levels.drop_first());
    }
}

pub proof fn lemma_count_remove(levels: Seq<LevelView>, i: int)
    requires
        0 <= i < levels.len(),
    ensures
        side_count(levels.remove(i)) + levels[i].orders.len() == side_count(levels),
    decreases levels.len(),
{
    if i > 0 {
        assert(levels.remove(i).drop_first() =~= levels.drop_first().remove(i - 1));
        lemma_count_remove(levels.drop_first(), i - 1);
    } else {
        assert(levels.remove(i) =~= levels.drop_first());
    }
}

pub proof fn lemma_count_insert(levels: Seq<LevelView>, i: int, l: LevelView)
    requires
        0 <= i <= levels.len(),
    ensures
        side_count(levels.insert(i, l)) == side_count(levels) + l.orders.len(),
    decreases levels.len(),
{
    if i > 0 {
        assert(levels.insert(i, l).drop_first() =~= levels.drop_first().insert(i - 1, l));
        lemma_count_insert(levels.drop_first(), i - 1, l);
    } else {
        assert(levels.insert(i, l).drop_first() =~= levels);
    }
}

/// Removing one order keeps a side well formed, and takes exactly that
/// order's id off it.
pub proof fn lemma_remove_at(levels: Seq<LevelView>, side: Side, i: int, j: int)
    requires
        side_wf(levels, side),
        valid_pos(levels, i, j),
    ensures
        side_wf(remove_at(levels, i, j), side),
        forall|id: OrderId|
            side_has(remove_at(levels, i, j), id) <==> (side_has(levels, id) && id
                != levels[i].orders[j].order_id),
        side_count(remove_at(levels, i, j)) + 1 == side_count(levels),
        remove_at(levels, i, j).len() > 0 ==> remove_at(levels, i, j)[0].price == levels[0].price
            || better(side, levels[0].price, remove_at(levels, i, j)[0].price),
{
    let gone = levels[i].orders[j].order_id;
    let rest = levels[i].orders.remove(j);
    let r = remove_at(levels, i, j);
    if rest.len() == 0 {
        lemma_count_remove(levels, i);
        assert forall|a: int| 0 <= a < r.len() implies #[trigger] r[a] == levels[if a < i { a } else { a + 1 }] by {}
        assert forall|id: OrderId| side_has(r, id) <==> (side_has(levels, id) && id != gone) by {
            if side_has(r, id) {
                let (a, b) = choose|a: int, b: int| valid_pos(r, a, b) && (#[trigger] r[a].orders[b]).order_id == id;
                let a2 = if a < i { a } else { a + 1 };
                assert(r[a].orders[b] == levels[a2].orders[b]);
                assert(valid_pos(levels, a2, b));
            }
            if side_has(levels, id) && id != gone {
                let (a, b) = choose|a: int, b: int| valid_pos(levels, a, b) && (#[trigger] levels[a].orders[b]).order_id == id;
                assert(a != i);
                let a2 = if a < i { a } else { a - 1 };
                assert(r[a2] == levels[a]);
                assert(valid_pos(r, a2, b) && r[a2].orders[b].order_id == id);
            }
        }
        assert forall|a1: int, b1: int, a2: int, b2: int|
            valid_pos(r, a1, b1) && valid_pos(r, a2, b2)
                && (#[trigger] r[a1].orders[b1]).order_id == (#[trigger] r[a2].orders[b2]).order_id
                implies a1 == a2 && b1 == b2 by {
            let c1 = if a1 < i { a1 } else { a1 + 1 };
            let c2 = if a2 < i { a2 } else { a2 + 1 };
            assert(r[a1].orders[b1] == levels[c1].orders[b1]);
            assert(r[a2].orders[b2] == levels[c2].orders[b2]);
        }
        assert forall|a: int, b: int| valid_pos(r, a, b) implies resting_ok(#[trigger] r[a].orders[b], side, r[a].price) by {
            let c = if a < i { a } else { a + 1 };
            assert(r[a] == levels[c]);
            assert(valid_pos(levels, c, b));
        }
        assert forall|a: int, b: int| 0 <= a < b < r.len() implies better(side, #[trigger] r[a].price, #[trigger] r[b].price) by {
            let c = if a < i { a } else { a + 1 };
            let d = if b < i { b } else { b + 1 };
            assert(r[a] == levels[c] && r[b] == levels[d]);
        }
        if r.len() > 0 {
            if i == 0 {
                assert(r[0] == levels[1]);
            }
        }
    } else {
        let nl = LevelView { price: levels[i].price, orders: rest };
        lemma_count_update(levels, i, nl);
        assert forall|a: int, b: int| valid_pos(r, a, b) implies #[trigger] r[a].orders[b]
            == levels[a].orders[if a == i && b >= j { b + 1 } else { b }] by {}
        assert forall|id: OrderId| side_has(r, id) <==> (side_has(levels, id) && id != gone) by {
            if side_has(r, id) {
                let (a, b) = choose|a: int, b: int| valid_pos(r, a, b) && (#[trigger] r[a].orders[b]).order_id == id;
                let b2 = if a == i && b >= j { b + 1 } else { b };
                assert(r[a].orders[b] == levels[a].orders[b2]);
                assert(valid_pos(levels, a, b2));
            }
            if side_has(levels, id) && id != gone {
                let (a, b) = choose|a: int, b: int| valid_pos(levels, a, b) && (#[trigger] levels[a].orders[b]).order_id == id;
                let b2 = if a == i && b > j { b - 1 } else { b };
                assert(valid_pos(r, a, b2));
                assert(r[a].orders[b2] == levels[a].orders[b]);
            }
        }
        assert forall|a1: int, b1: int, a2: int, b2: int|
            valid_pos(r, a1, b1) && valid_pos(r, a2, b2)
                && (#[trigger] r[a1].orders[b1]).order_id == (#[trigger] r[a2].orders[b2]).order_id
                implies a1 == a2 && b1 == b2 by {
            let c1 = if a1 == i && b1 >= j { b1 + 1 } else { b1 };
            let c2 = if a2 == i && b2 >= j { b2 + 1 } else { b2 };
            assert(r[a1].orders[b1] == levels[a1].orders[c1]);
            assert(r[a2].orders[b2] == levels[a2].orders[c2]);
        }
        assert forall|a: int, b: int| valid_pos(r, a, b) implies resting_ok(#[trigger] r[a].orders[b], side, r[a].price) by {
            let c = if a == i && b >= j { b + 1 } else { b };
            assert(r[a].orders[b] == levels[a].orders[c]);
            assert(valid_pos(levels, a, c));
        }
        assert forall|a: int| 0 <= a < r.len() implies #[trigger] r[a].orders.len() > 0 by {}
        assert forall|a: int| 0 <= a < r.len() implies #[trigger] r[a].price == levels[a].price by {}
    }
}


/// A partial or full fill of the best order keeps a side well formed, adds
/// no id, and makes its best price no better.
pub proof fn lemma_fill_front(levels: Seq<LevelView>, side: Side, q: Quantity)
    requires
        side_wf(levels, side),
        levels.len() > 0,
        0 < q <= levels[0].orders[0].remaining_quantity,
    ensures
        side_wf(fill_front(levels, q), side),
        forall|id: OrderId| side_has(fill_front(levels, q), id) ==> side_has(levels, id),
        side_count(fill_front(levels, q)) + (if q == levels[0].orders[0].remaining_quantity { 1int } else { 0 })
            == side_count(levels),
        fill_front(levels, q).len() > 0 ==> fill_front(levels, q)[0].price == levels[0].price
            || better(side, levels[0].price, fill_front(levels, q)[0].price),
{
    assert(valid_pos(levels, 0, 0));
    let o = levels[0].orders[0];
    if o.remaining_quantity == q {
        lemma_remove_at(levels, side, 0, 0);
    } else {
        let r = fill_front(levels, q);
        let nl = LevelView { price: levels[0].price, orders: levels[0].orders.update(0, o.filled_by(q)) };
        lemma_count_update(levels, 0, nl);
        assert forall|a: int, b: int| valid_pos(r, a, b) implies (#[trigger] r[a].orders[b]).order_id
            == levels[a].orders[b].order_id && valid_pos(levels, a, b) by {}
        assert forall|id: OrderId| side_has(r, id) implies side_has(levels, id) by {
            let (a, b) = choose|a: int, b: int| valid_pos(r, a, b) && (#[trigger] r[a].orders[b]).order_id == id;
            assert(levels[a].orders[b].order_id == id);
        }
        assert forall|a: int, b: int| valid_pos(r, a, b) implies resting_ok(#[trigger] r[a].orders[b], side, r[a].price) by {
            assert(valid_pos(levels, a, b));
        }
        assert forall|a1: int, b1: int, a2: int, b2: int|
            valid_pos(r, a1, b1) && valid_pos(r, a2, b2)
                && (#[trigger] r[a1].orders[b1]).order_id == (#[trigger] r[a2].orders[b2]).order_id
                implies a1 == a2 && b1 == b2 by {
            assert(levels[a1].orders[b1].order_id == levels[a2].orders[b2].order_id);
        }
        assert forall|a: int| 0 <= a < r.len() implies #[trigger] r[a].price == levels[a].price
            && r[a].orders.len() == levels[a].orders.len() by {}
    }
}

/// Slots are unique.
pub proof fn lemma_slot(levels: Seq<LevelView>, side: Side, p: Price, k: int)
    requires
        is_slot(levels, side, p, k),
    ensures
        slot(levels, side, p) == k,
{
    let c = slot(levels, side, p);
    assert(is_slot(levels, side, p, c));
    if c < k {
        assert(better(side, levels[c].price, p));
    }
    if k < c {
        assert(better(side, levels[k].price, p));
    }
}

/// Resting a new live order keeps a side well formed and adds exactly its id.
pub proof fn lemma_rest(levels: Seq<LevelView>, side: Side, o: Order, k: int)
    requires
        side_wf(levels, side),
        resting_ok(o, side, o.price),
        !side_has(levels, o.order_id),
        is_slot(levels, side, o.price, k),
    ensures
        slot(levels, side, o.price) == k,
        side_wf(rest(levels, side, o), side),
        forall|id: OrderId| side_has(rest(levels, side, o), id) <==> (side_has(levels, id) || id == o.order_id),
        side_count(rest(levels, side, o)) == side_count(levels) + 1,
        rest(levels, side, o).len() > 0,
        rest(levels, side, o)[0].price == o.price || (levels.len() > 0 && rest(levels, side, o)[0].price
            == levels[0].price),
{
    lemma_slot(levels, side, o.price, k);
    let r = rest(levels, side, o);
    if k < levels.len() && levels[k].price == o.price {
        let nl = LevelView { price: o.price, orders: levels[k].orders.push(o) };
        lemma_count_update(levels, k, nl);
        let n = levels[k].orders.len() as int;
        assert forall|a: int, b: int| valid_pos(r, a, b) && !(a == k && b == n) implies #[trigger] r[a].orders[b]
            == levels[a].orders[b] && valid_pos(levels, a, b) by {}
        assert(r[k].orders[n] == o);
        assert forall|id: OrderId| side_has(r, id) <==> (side_has(levels, id) || id == o.order_id) by {
            if side_has(r, id) {
                let (a, b) = choose|a: int, b: int| valid_pos(r, a, b) && (#[trigger] r[a].orders[b]).order_id == id;
                if !(a == k && b == n) {
                    assert(levels[a].orders[b].order_id == id);
                }
            }
            if side_has(levels, id) {
                let (a, b) = choose|a: int, b: int| valid_pos(levels, a, b) && (#[trigger] levels[a].orders[b]).order_id == id;
                assert(valid_pos(r, a, b) && r[a].orders[b] == levels[a].orders[b]);
            }
            if id == o.order_id {
                assert(valid_pos(r, k, n));
            }
        }
        assert forall|a1: int, b1: int, a2: int, b2: int|
            valid_pos(r, a1, b1) && valid_pos(r, a2, b2)
                && (#[trigger] r[a1].orders[b1]).order_id == (#[trigger] r[a2].orders[b2]).order_id
                implies a1 == a2 && b1 == b2 by {
            if !(a1 == k && b1 == n) && !(a2 == k && b2 == n) {
                assert(levels[a1].orders[b1].order_id == levels[a2].orders[b2].order_id);
            } else if !(a1 == k && b1 == n) {
                assert(levels[a1].orders[b1].order_id == o.order_id);
            } else if !(a2 == k && b2 == n) {
                assert(levels[a2].orders[b2].order_id == o.order_id);
            }
        }
        assert forall|a: int, b: int| valid_pos(r, a, b) implies resting_ok(#[trigger] r[a].orders[b], side, r[a].price) by {
            if !(a == k && b == n) {
                assert(resting_ok(levels[a].orders[b], side, levels[a].price));
            }
        }
        assert forall|a: int| 0 <= a < r.len() implies #[trigger] r[a].price == levels[a].price
            && r[a].orders.len() > 0 by {}
    } else {
        let nl = LevelView { price: o.price, orders: seq![o] };
        lemma_count_insert(levels, k, nl);
        assert(r[k] == nl);
        assert(r[k].orders[0] == o);
        assert forall|a: int| 0 <= a < r.len() && a != k implies #[trigger] r[a] == levels[if a < k { a } else { a - 1 }] by {}
        assert forall|m: int| k <= m < levels.len() implies better(side, o.price, #[trigger] levels[m].price) by {
            if m > k {
                assert(better(side, levels[k].price, levels[m].price));
            }
        }
        assert forall|id: OrderId| side_has(r, id) <==> (side_has(levels, id) || id == o.order_id) by {
            if side_has(r, id) {
                let (a, b) = choose|a: int, b: int| valid_pos(r, a, b) && (#[trigger] r[a].orders[b]).order_id == id;
                if a != k {
                    let c = if a < k { a } else { a - 1 };
                    assert(valid_pos(levels, c, b) && levels[c].orders[b].order_id == id);
                }
            }
            if side_has(levels, id) {
                let (a, b) = choose|a: int, b: int| valid_pos(levels, a, b) && (#[trigger] levels[a].orders[b]).order_id == id;
                let c = if a < k { a } else { a + 1 };
                assert(r[c] == levels[a]);
                assert(valid_pos(r, c, b) && r[c].orders[b].order_id == id);
            }
            if id == o.order_id {
                assert(valid_pos(r, k, 0));
            }
        }
        assert forall|a1: int, b1: int, a2: int, b2: int|
            valid_pos(r, a1, b1) && valid_pos(r, a2, b2)
                && (#[trigger] r[a1].orders[b1]).order_id == (#[trigger] r[a2].orders[b2]).order_id
                implies a1 == a2 && b1 == b2 by {
            let c1 = if a1 < k { a1 } else { a1 - 1 };
            let c2 = if a2 < k { a2 } else { a2 - 1 };
            if a1 != k && a2 != k {
                assert(levels[c1].orders[b1].order_id == levels[c2].orders[b2].order_id);
            } else if a1 != k {
                assert(valid_pos(levels, c1, b1) && levels[c1].orders[b1].order_id == o.order_id);
            } else if a2 != k {
                assert(valid_pos(levels, c2, b2) && levels[c2].orders[b2].order_id == o.order_id);
            }
        }
        assert forall|a: int, b: int| valid_pos(r, a, b) implies resting_ok(#[trigger] r[a].orders[b], side, r[a].price) by {
            if a != k {
                let c = if a < k { a } else { a - 1 };
                assert(resting_ok(levels[c].orders[b], side, levels[c].price));
            }
        }
        assert forall|a: int, b: int| 0 <= a < b < r.len() implies better(side, #[trigger] r[a].price, #[trigger] r[b].price) by {
            let c = if a < k { a } else { a - 1 };
            let d = if b < k { b } else { b - 1 };
            if a != k && b != k {
                assert(better(side, levels[c].price, levels[d].price));
            } else if a == k {
                assert(better(side, o.price, levels[d].price));
            } else {
                assert(better(side, levels[c].price, o.price));
            }
        }
        assert forall|a: int| 0 <= a < r.len() implies #[trigger] r[a].orders.len() > 0 by {}
        if k > 0 {
            assert(r[0] == levels[0]);
        }
    }
}


/// What matching leaves: a well-formed side with no new id and a best price
/// no better than before, an incoming order that only lost quantity, and a
/// reason to stop.
pub proof fn lemma_sweep(levels: Seq<LevelView>, side: Side, taker: Order)
    requires
        side_wf(levels, side),
    ensures
        ({
            let (trades, after, left) = sweep(levels, taker);
            &&& side_wf(after, side)
            &&& forall|id: OrderId| side_has(after, id) ==> side_has(levels, id)
            &&& side_count(after) <= side_count(levels)
            &&& after.len() <= levels.len()
            &&& after.len() > 0 && levels.len() > 0 ==> (after[0].price == levels[0].price
                || better(side, levels[0].price, after[0].price))
            &&& left.remaining_quantity <= taker.remaining_quantity
            &&& left == taker.filled_by((taker.remaining_quantity - left.remaining_quantity) as Quantity)
            &&& (left.remaining_quantity == 0 || after.len() == 0 || !reaches(left, after[0].price))
        }),
    decreases taker.remaining_quantity,
{
    if levels.len() == 0 || levels[0].orders.len() == 0 || !reaches(taker, levels[0].price) {
    } else {
        let maker = levels[0].orders[0];
        let q = min_qty(taker.remaining_quantity, maker.remaining_quantity);
        assert(valid_pos(levels, 0, 0));
        if q > 0 {
            lemma_fill_front(levels, side, q);
            let next_levels = fill_front(levels, q);
            lemma_sweep(next_levels, side, taker.filled_by(q));
            let after = sweep(next_levels, taker.filled_by(q)).1;
            if after.len() > 0 && next_levels.len() > 0 {
                assert(after[0].price == levels[0].price || better(side, levels[0].price, after[0].price));
            }
        }
    }
}


pub proof fn lemma_volume_bound(orders: Seq<Order>)
    ensures
        volume(orders) <= orders.len() * (u32::MAX as nat),
    decreases orders.len(),
{
    if orders.len() > 0 {
        lemma_volume_bound(orders.drop_last());
    }
}

/// Whether `a` is a strictly better price than `b` on `side`.
pub fn is_better(side: Side, a: Price, b: Price) -> (r: bool)
    ensures
        r == better(side, a, b),
{
    match side {
        Side::Buy => a > b,
        Side::Sell => a < b,
    }
}

/// Whether an incoming order may trade with a resting one at `price`.
pub fn can_reach(taker: &Order, price: Price) -> (r: bool)
    ensures
        r == reaches(*taker, price),
{
    match taker.order_type {
        OrderType::Market => true,
        _ => match taker.side {
            Side::Buy => price <= taker.price,
            Side::Sell => price >= taker.price,
        },
    }
}

pub fn make_trade(taker: &Order, maker: &Order, q: Quantity) -> (r: Trade)
    ensures
        r == trade_between(*taker, *maker, q),
{
    let taker_price = match taker.order_type {
        OrderType::Market => maker.price,
        _ => taker.price,
    };
    let t = TradeInfo::new(taker.order_id, taker_price, q);
    let m = TradeInfo::new(maker.order_id, maker.price, q);
    match taker.side {
        Side::Buy => Trade::new(t, m),
        Side::Sell => Trade::new(m, t),
    }
}

/// Total remaining quantity at a level.
pub fn level_volume(level: &PriceLevel) -> (r: Volume)
    ensures
        r == volume(level.orders@),
{
    let n = level.orders.len();
    let mut sum: Volume = 0;
    let mut k: usize = 0;
    while k < n
        invariant
            n == level.orders@.len(),
            k <= n,
            sum == volume(level.orders@.take(k as int)),
        decreases n - k,
    {
        proof {
            let s = level.orders@.take(k as int + 1);
            assert(s.drop_last() =~= level.orders@.take(k as int));
            lemma_volume_bound(s);
            assert(s.len() * (u32::MAX as nat) <= (usize::MAX as nat) * (u32::MAX as nat)) by (nonlinear_arith)
                requires s.len() <= usize::MAX;
        }
        sum = sum + level.orders[k].remaining_quantity as Volume;
        k = k + 1;
    }
    assert(level.orders@.take(n as int) =~= level.orders@);
    sum
}

/// Takes the order at `(i, j)` off a side, dropping its level if left empty.
pub fn remove_from_side(levels: &mut Vec<PriceLevel>, i: usize, j: usize)
    requires
        valid_pos(side_view(old(levels)@), i as int, j as int),
    ensures
        side_view(final(levels)@) == remove_at(side_view(old(levels)@), i as int, j as int),
{
    let ghost v = side_view(levels@);
    let _ = levels[i].orders.remove(j);
    if levels[i].orders.len() == 0 {
        let _ = levels.remove(i);
        assert(side_view(levels@) =~= remove_at(v, i as int, j as int));
    } else {
        assert(side_view(levels@) =~= remove_at(v, i as int, j as int));
    }
}

/// Rests `o` last in time priority at its price on a side.
pub fn rest_in_side(levels: &mut Vec<PriceLevel>, side: Side, o: Order)
    requires
        side_wf(side_view(old(levels)@), side),
    ensures
        side_view(final(levels)@) == rest(side_view(old(levels)@), side, o),
        is_slot(side_view(old(levels)@), side, o.price, slot(side_view(old(levels)@), side, o.price)),
{
    let ghost v = side_view(levels@);
    let mut k: usize = 0;
    while k < levels.len() && is_better(side, levels[k].price, o.price)
        invariant
            v == side_view(levels@),
            k <= levels@.len(),
            forall|m: int| 0 <= m < k ==> better(side, #[trigger] v[m].price, o.price),
        decreases levels@.len() - k,
    {
        k = k + 1;
    }
    assert(is_slot(v, side, o.price, k as int));
    proof {
        lemma_slot(v, side, o.price, k as int);
    }
    if k < levels.len() && levels[k].price == o.price {
        levels[k].orders.push_back(o);
        assert(side_view(levels@) =~= rest(v, side, o));
    } else {
        let mut orders: VecDeque<Order> = VecDeque::new();
        orders.push_back(o);
        levels.insert(k, PriceLevel { price: o.price, orders });
        assert(side_view(levels@)[k as int].orders =~= seq![o]);
        assert(side_view(levels@) =~= rest(v, side, o));
    }
}


/// Matches an incoming order against a side, taking each order filled in
/// full off the side and out of the index. Gives the trades and what is
/// left of the incoming order.
pub fn sweep_side(
    levels: &mut Vec<PriceLevel>,
    side: Side,
    taker: Order,
    index: &mut HashMap<OrderId, Locator>,
) -> (r: (Vec<Trade>, Order))
    requires
        side_wf(side_view(old(levels)@), side),
        side_indexed(old(index)@, side_view(old(levels)@), side),
    ensures
        r.0@ == sweep(side_view(old(levels)@), taker).0,
        side_view(final(levels)@) == sweep(side_view(old(levels)@), taker).1,
        r.1 == sweep(side_view(old(levels)@), taker).2,
        side_indexed(final(index)@, side_view(final(levels)@), side),
        same_off_side(old(index)@, final(index)@, side),
        final(index)@.len() + side_count(side_view(old(levels)@)) == old(index)@.len() + side_count(
            side_view(final(levels)@),
        ),
{
    broadcast use vstd::std_specs::hash::group_hash_axioms;

    let ghost start = side_view(levels@);
    let ghost idx0 = index@;
    let mut trades: Vec<Trade> = Vec::new();
    let mut left = taker;
    loop
        invariant
            side_wf(side_view(levels@), side),
            sweep(start, taker) == (trades@ + sweep(side_view(levels@), left).0, sweep(
                side_view(levels@),
                left,
            ).1, sweep(side_view(levels@), left).2),
            side_indexed(index@, side_view(levels@), side),
            same_off_side(idx0, index@, side),
            index@.len() + side_count(start) == idx0.len() + side_count(side_view(levels@)),
        ensures
            trades@ == sweep(start, taker).0,
            side_view(levels@) == sweep(start, taker).1,
            left == sweep(start, taker).2,
            side_indexed(index@, side_view(levels@), side),
            same_off_side(idx0, index@, side),
            index@.len() + side_count(start) == idx0.len() + side_count(side_view(levels@)),
        decreases left.remaining_quantity,
    {
        let ghost cur = side_view(levels@);
        let ghost idx1 = index@;
        if levels.len() == 0 || left.remaining_quantity == 0 {
            proof {
                if levels.len() > 0 {
                    assert(valid_pos(cur, 0, 0));
                }
                assert(sweep(cur, left) == (Seq::<Trade>::empty(), cur, left));
                assert(trades@ + Seq::<Trade>::empty() =~= trades@);
            }
            break;
        }
        assert(valid_pos(cur, 0, 0));
        if !can_reach(&left, levels[0].price) {
            assert(sweep(cur, left) == (Seq::<Trade>::empty(), cur, left));
            assert(trades@ + Seq::<Trade>::empty() =~= trades@);
            break;
        }
        let maker = levels[0].orders[0];
        let q = if left.remaining_quantity <= maker.remaining_quantity {
            left.remaining_quantity
        } else {
            maker.remaining_quantity
        };
        assert(q == min_qty(left.remaining_quantity, maker.remaining_quantity));
        let trade = make_trade(&left, &maker, q);
        let ghost before = left;
        proof {
            lemma_fill_front(cur, side, q);
            lemma_fill_front_indexed(idx1, cur, side, q);
            lemma_index_chain(idx0, idx1, index_after_fill(idx1, cur, q), side);
        }
        trades.push(trade);
        left.fill(q);
        if maker.remaining_quantity == q {
            remove_from_side(levels, 0, 0);
            let _ = index.remove(&maker.order_id);
        } else {
            let mut m = maker;
            m.fill(q);
            let _ = levels[0].orders.pop_front();
            levels[0].orders.push_front(m);
            assert(side_view(levels@)[0].orders =~= cur[0].orders.update(0, maker.filled_by(q)));
            assert(side_view(levels@) =~= fill_front(cur, q));
        }
        assert(index@ == index_after_fill(idx1, cur, q));
        assert(sweep(cur, before) == (seq![trade] + sweep(fill_front(cur, q), left).0, sweep(
            fill_front(cur, q),
            left,
        ).1, sweep(fill_front(cur, q), left).2));
        assert(trades@ + sweep(side_view(levels@), left).0 =~= trades@.drop_last() + (seq![trade] + sweep(
            side_view(levels@),
            left,
        ).0));
    }
    (trades, left)
}

pub open spec fn is_at(levels: Seq<LevelView>, i: int, j: int, id: OrderId) -> bool {
    valid_pos(levels, i, j) && levels[i].orders[j].order_id == id
}

/// The place of the order with id `id` on a side.
pub open spec fn position(levels: Seq<LevelView>, id: OrderId) -> (int, int) {
    choose|i: int, j: int| #[trigger] is_at(levels, i, j, id)
}

pub proof fn lemma_position(levels: Seq<LevelView>, side: Side, i: int, j: int)
    requires
        side_wf(levels, side),
        valid_pos(levels, i, j),
    ensures
        position(levels, levels[i].orders[j].order_id) == (i, j),
{
    let id = levels[i].orders[j].order_id;
    assert(is_at(levels, i, j, id));
    let (a, b) = position(levels, id);
    assert(is_at(levels, a, b, id));
    assert(levels[a].orders[b].order_id == levels[i].orders[j].order_id);
}

/// Every price has a slot on every side.
pub proof fn lemma_slot_exists(levels: Seq<LevelView>, side: Side, p: Price)
    ensures
        is_slot(levels, side, p, slot(levels, side, p)),
    decreases levels.len(),
{
    if levels.len() == 0 {
        assert(is_slot(levels, side, p, 0));
    } else {
        let init = levels.drop_last();
        lemma_slot_exists(init, side, p);
        let k = slot(init, side, p);
        assert forall|m: int| 0 <= m < k implies better(side, #[trigger] levels[m].price, p) by {
            assert(levels[m] == init[m]);
        }
        if k < init.len() {
            assert(levels[k] == init[k]);
            assert(is_slot(levels, side, p, k));
        } else if better(side, levels[k].price, p) {
            assert(is_slot(levels, side, p, k + 1));
        } else {
            assert(is_slot(levels, side, p, k));
        }
    }
}


pub proof fn lemma_position_of(levels: Seq<LevelView>, id: OrderId)
    requires
        side_has(levels, id),
    ensures
        valid_pos(levels, position(levels, id).0, position(levels, id).1),
        levels[position(levels, id).0].orders[position(levels, id).1].order_id == id,
{
    let (i, j) = choose|i: int, j: int| valid_pos(levels, i, j) && (#[trigger] levels[i].orders[j]).order_id == id;
    assert(is_at(levels, i, j, id));
}


/// The record of the live order with id `id` on a side.
pub open spec fn side_order(levels: Seq<LevelView>, id: OrderId) -> Order {
    let p = position(levels, id);
    levels[p.0].orders[p.1]
}

/// Taking one order off leaves every other record as it was.
pub proof fn lemma_remove_at_orders(levels: Seq<LevelView>, side: Side, i: int, j: int)
    requires
        side_wf(levels, side),
        valid_pos(levels, i, j),
    ensures
        forall|x: OrderId| #[trigger] side_has(remove_at(levels, i, j), x)
            ==> side_order(remove_at(levels, i, j), x) == side_order(levels, x),
{
    lemma_remove_at(levels, side, i, j);
    let r = remove_at(levels, i, j);
    let emptied = levels[i].orders.remove(j).len() == 0;
    assert forall|x: OrderId| #[trigger] side_has(r, x) implies side_order(r, x) == side_order(levels, x) by {
        lemma_position_of(r, x);
        let (a, b) = position(r, x);
        let (c, d) = if emptied {
            (if a < i { a } else { a + 1 }, b)
        } else {
            (a, if a == i && b >= j { b + 1 } else { b })
        };
        assert(r[a].orders[b] == levels[c].orders[d]);
        assert(valid_pos(levels, c, d));
        lemma_position(levels, side, c, d);
    }
}

/// A fill of the best order keeps every record's side and price.
pub proof fn lemma_fill_front_orders(levels: Seq<LevelView>, side: Side, q: Quantity)
    requires
        side_wf(levels, side),
        levels.len() > 0,
        0 < q <= levels[0].orders[0].remaining_quantity,
    ensures
        forall|x: OrderId| #[trigger] side_has(fill_front(levels, q), x)
            ==> side_order(fill_front(levels, q), x).price == side_order(levels, x).price,
{
    assert(valid_pos(levels, 0, 0));
    lemma_fill_front(levels, side, q);
    if levels[0].orders[0].remaining_quantity == q {
        lemma_remove_at_orders(levels, side, 0, 0);
    } else {
        let r = fill_front(levels, q);
        assert forall|x: OrderId| #[trigger] side_has(r, x) implies side_order(r, x).price
            == side_order(levels, x).price by {
            lemma_position_of(r, x);
            let (a, b) = position(r, x);
            assert(r[a].orders[b].order_id == levels[a].orders[b].order_id);
            assert(r[a].orders[b].price == levels[a].orders[b].price);
            assert(valid_pos(levels, a, b));
            lemma_position(levels, side, a, b);
        }
    }
}

/// Resting an order leaves every other record as it was.
pub proof fn lemma_rest_orders(levels: Seq<LevelView>, side: Side, o: Order)
    requires
        side_wf(levels, side),
        resting_ok(o, side, o.price),
        !side_has(levels, o.order_id),
    ensures
        side_order(rest(levels, side, o), o.order_id) == o,
        forall|x: OrderId| #[trigger] side_has(levels, x)
            ==> side_order(rest(levels, side, o), x) == side_order(levels, x),
{
    lemma_slot_exists(levels, side, o.price);
    let k = slot(levels, side, o.price);
    lemma_rest(levels, side, o, k);
    let r = rest(levels, side, o);
    let joins = k < levels.len() && levels[k].price == o.price;
    let n = if joins { levels[k].orders.len() as int } else { 0 };
    assert(valid_pos(r, k, n) && r[k].orders[n] == o);
    lemma_position(r, side, k, n);
    assert forall|x: OrderId| #[trigger] side_has(levels, x) implies side_order(r, x) == side_order(levels, x) by {
        lemma_position_of(levels, x);
        let (c, d) = position(levels, x);
        let a = if joins || c < k { c } else { c + 1 };
        assert(r[a] == levels[c] || (joins && a == k && r[a].orders[d] == levels[c].orders[d]));
        assert(valid_pos(r, a, d) && r[a].orders[d] == levels[c].orders[d]);
        lemma_position(r, side, a, d);
    }
}

/// The index has an entry naming `s` for exactly the orders of this side,
/// with the price of each.
pub open spec fn side_indexed(idx: Map<OrderId, Locator>, levels: Seq<LevelView>, s: Side) -> bool {
    &&& forall|id: OrderId| #[trigger] idx.contains_key(id) && idx[id].side == s ==> side_has(levels, id)
    &&& forall|id: OrderId|
        #[trigger] side_has(levels, id) ==> idx.contains_key(id) && idx[id] == (Locator {
            side: s,
            price: side_order(levels, id).price,
        })
}

/// The two indexes agree on every entry that does not name `s`.
pub open spec fn same_off_side(a: Map<OrderId, Locator>, b: Map<OrderId, Locator>, s: Side) -> bool {
    &&& forall|id: OrderId| #[trigger] a.contains_key(id) && a[id].side != s ==> b.contains_key(id) && b[id] == a[id]
    &&& forall|id: OrderId| #[trigger] b.contains_key(id) && b[id].side != s ==> a.contains_key(id) && b[id] == a[id]
}

/// The index after a fill of the best order: the order's entry goes when it
/// is filled in full.
pub open spec fn index_after_fill(idx: Map<OrderId, Locator>, levels: Seq<LevelView>, q: Quantity) -> Map<
    OrderId,
    Locator,
> {
    if levels[0].orders[0].remaining_quantity == q {
        idx.remove(levels[0].orders[0].order_id)
    } else {
        idx
    }
}

pub proof fn lemma_fill_front_indexed(idx: Map<OrderId, Locator>, levels: Seq<LevelView>, side: Side, q: Quantity)
    requires
        side_wf(levels, side),
        side_indexed(idx, levels, side),
        idx.dom().finite(),
        levels.len() > 0,
        0 < q <= levels[0].orders[0].remaining_quantity,
    ensures
        side_indexed(index_after_fill(idx, levels, q), fill_front(levels, q), side),
        same_off_side(idx, index_after_fill(idx, levels, q), side),
        index_after_fill(idx, levels, q).len() + side_count(levels) == idx.len() + side_count(
            fill_front(levels, q),
        ),
{
    assert(valid_pos(levels, 0, 0));
    lemma_fill_front(levels, side, q);
    lemma_fill_front_orders(levels, side, q);
    let r = fill_front(levels, q);
    let front = levels[0].orders[0];
    let idx2 = index_after_fill(idx, levels, q);
    if front.remaining_quantity == q {
        lemma_remove_at(levels, side, 0, 0);
        assert(side_has(levels, front.order_id));
        idx.lemma_remove_key_len(front.order_id);
        assert forall|id: OrderId| #[trigger] idx2.contains_key(id) && idx2[id].side == side implies side_has(r, id) by {
            assert(idx.contains_key(id) && idx[id].side == side);
            assert(side_has(levels, id));
        }
        assert forall|id: OrderId| #[trigger] side_has(r, id) implies idx2.contains_key(id) && idx2[id] == (Locator {
            side: side,
            price: side_order(r, id).price,
        }) by {
            assert(side_has(levels, id));
        }
    } else {
        assert forall|id: OrderId| #[trigger] side_has(levels, id) implies side_has(r, id) by {
            let (a, b) = choose|a: int, b: int| valid_pos(levels, a, b) && (#[trigger] levels[a].orders[b]).order_id == id;
            assert(valid_pos(r, a, b) && r[a].orders[b].order_id == id);
        }
        assert forall|id: OrderId| #[trigger] idx2.contains_key(id) && idx2[id].side == side implies side_has(r, id) by {
            assert(side_has(levels, id));
        }
        assert forall|id: OrderId| #[trigger] side_has(r, id) implies idx2.contains_key(id) && idx2[id] == (Locator {
            side: side,
            price: side_order(r, id).price,
        }) by {
            assert(side_has(levels, id));
        }
    }
}

/// Agreement on the entries off a side carries over through two changes.
pub proof fn lemma_index_chain(a: Map<OrderId, Locator>, b: Map<OrderId, Locator>, c: Map<OrderId, Locator>, s: Side)
    requires
        same_off_side(a, b, s),
        same_off_side(b, c, s),
    ensures
        same_off_side(a, c, s),
{
}


/// The level at `price` on a side, if there is one.
pub fn find_level(levels: &Vec<PriceLevel>, price: Price) -> (r: Option<usize>)
    ensures
        match r {
            Some(i) => i < levels@.len() && side_view(levels@)[i as int].price == price,
            None => forall|i: int| 0 <= i < levels@.len() ==> (#[trigger] side_view(levels@)[i]).price != price,
        },
{
    let mut i: usize = 0;
    while i < levels.len()
        invariant
            i <= levels@.len(),
            forall|a: int| 0 <= a < i ==> (#[trigger] side_view(levels@)[a]).price != price,
        decreases levels@.len() - i,
    {
        if levels[i].price == price {
            return Some(i);
        }
        i = i + 1;
    }
    None
}

/// The place of the order with id `id` within a level, if it is there.
pub fn find_in_level(level: &PriceLevel, id: OrderId) -> (r: Option<usize>)
    ensures
        match r {
            Some(j) => j < level.orders@.len() && level.orders@[j as int].order_id == id,
            None => forall|j: int| 0 <= j < level.orders@.len() ==> (#[trigger] level.orders@[j]).order_id != id,
        },
{
    let mut j: usize = 0;
    while j < level.orders.len()
        invariant
            j <= level.orders@.len(),
            forall|b: int| 0 <= b < j ==> (#[trigger] level.orders@[b]).order_id != id,
        decreases level.orders@.len() - j,
    {
        if level.orders[j].order_id == id {
            return Some(j);
        }
        j = j + 1;
    }
    None
}

/// Taking an order off its side and its entry out of the index keeps the
/// two in step.
pub proof fn lemma_index_after_remove(idx: Map<OrderId, Locator>, levels: Seq<LevelView>, side: Side, i: int, j: int)
    requires
        side_wf(levels, side),
        side_indexed(idx, levels, side),
        idx.dom().finite(),
        valid_pos(levels, i, j),
    ensures
        ({
            let id = levels[i].orders[j].order_id;
            &&& side_indexed(idx.remove(id), remove_at(levels, i, j), side)
            &&& same_off_side(idx, idx.remove(id), side)
            &&& idx.remove(id).len() + 1 == idx.len()
        }),
{
    let id = levels[i].orders[j].order_id;
    let r = remove_at(levels, i, j);
    let idx2 = idx.remove(id);
    lemma_remove_at(levels, side, i, j);
    lemma_remove_at_orders(levels, side, i, j);
    assert(side_has(levels, id));
    idx.lemma_remove_key_len(id);
    assert forall|x: OrderId| #[trigger] idx2.contains_key(x) && idx2[x].side == side implies side_has(r, x) by {
        assert(idx.contains_key(x) && idx[x].side == side);
        assert(side_has(levels, x));
    }
    assert forall|x: OrderId| #[trigger] side_has(r, x) implies idx2.contains_key(x) && idx2[x] == (Locator {
        side: side,
        price: side_order(r, x).price,
    }) by {
        assert(side_has(levels, x));
    }
}

/// Resting an order and giving it an entry keeps side and index in step.
pub proof fn lemma_index_after_rest(idx: Map<OrderId, Locator>, levels: Seq<LevelView>, side: Side, o: Order)
    requires
        side_wf(levels, side),
        side_indexed(idx, levels, side),
        idx.dom().finite(),
        resting_ok(o, side, o.price),
        !idx.contains_key(o.order_id),
    ensures
        ({
            let idx2 = idx.insert(o.order_id, Locator { side, price: o.price });
            &&& side_indexed(idx2, rest(levels, side, o), side)
            &&& same_off_side(idx, idx2, side)
            &&& idx2.len() == idx.len() + 1
        }),
{
    let idx2 = idx.insert(o.order_id, Locator { side, price: o.price });
    let r = rest(levels, side, o);
    assert(!side_has(levels, o.order_id));
    lemma_slot_exists(levels, side, o.price);
    lemma_rest(levels, side, o, slot(levels, side, o.price));
    lemma_rest_orders(levels, side, o);
    assert forall|x: OrderId| #[trigger] idx2.contains_key(x) && idx2[x].side == side implies side_has(r, x) by {
        if x != o.order_id {
            assert(idx.contains_key(x) && idx[x].side == side);
        }
    }
    assert forall|x: OrderId| #[trigger] side_has(r, x) implies idx2.contains_key(x) && idx2[x] == (Locator {
        side: side,
        price: side_order(r, x).price,
    }) by {
        if x != o.order_id {
            assert(side_has(levels, x));
        }
    }
    assert(idx2.dom() =~= idx.dom().insert(o.order_id));
}

/// Changes confined to one side's entries leave the other side indexed.
pub proof fn lemma_index_other_side(a: Map<OrderId, Locator>, b: Map<OrderId, Locator>, levels: Seq<LevelView>, s: Side)
    requires
        side_indexed(a, levels, s),
        same_off_side(a, b, s.opposite()),
    ensures
        side_indexed(b, levels, s),
{
    assert forall|x: OrderId| #[trigger] b.contains_key(x) && b[x].side == s implies side_has(levels, x) by {
        assert(a.contains_key(x) && a[x].side == s);
    }
    assert forall|x: OrderId| #[trigger] side_has(levels, x) implies b.contains_key(x) && b[x] == (Locator {
        side: s,
        price: side_order(levels, x).price,
    }) by {
        assert(a.contains_key(x) && a[x].side != s.opposite());
    }
}

} // verus!

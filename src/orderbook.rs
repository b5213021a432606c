use vstd::prelude::*;
use std::collections::HashMap;
use crate::bookview::{depth, lemma_add, lemma_cancel, BookView};
use crate::types::{OrderId, Price, Trades};
use crate::levelinfos::{LevelInfo, OrderbookLevelInfos};
use crate::modifyorder::OrderModify;
use crate::order::Order;
use crate::ordertypes::OrderType;
use crate::side::Side;
use crate::book_side::{
    better, find_in_level, find_level, lemma_index_after_remove, lemma_index_after_rest, lemma_index_other_side,
    lemma_position, lemma_position_of, lemma_rest, lemma_slot_exists, lemma_sweep, level_volume, position,
    remove_at, remove_from_side, rest, rest_in_side, resting_ok, side_has, side_indexed, side_view, slot,
    sweep, sweep_side, valid_pos, Locator, PriceLevel,
};
use crate::trade::Trade;

verus! {

/// A single-symbol limit order book with price-time priority matching.
/// Every live order sits in one level of one side and has one entry in the
/// identity index.
pub struct OrderBook {
    orders: HashMap<OrderId, Locator>,
    bids: Vec<PriceLevel>,
    asks: Vec<PriceLevel>,
}

impl View for OrderBook {
    type V = BookView;

    closed spec fn view(&self) -> BookView {
        BookView { bids: side_view(self.bids@), asks: side_view(self.asks@) }
    }
}

/// The trades of an admission as values.
pub open spec fn trades_view(r: Option<Trades>) -> Option<Seq<Trade>> {
    match r {
        Some(v) => Some(v@),
        None => None,
    }
}

impl OrderBook {
    /// The identity index: order id to the side and price of its level.
    pub closed spec fn index(&self) -> Map<OrderId, Locator> {
        self.orders@
    }

    /// The index has an entry for exactly the live orders, each naming the
    /// order's side and price.
    pub closed spec fn indexed(&self) -> bool {
        &&& side_indexed(self.orders@, self@.bids, Side::Buy)
        &&& side_indexed(self.orders@, self@.asks, Side::Sell)
        &&& self.orders@.len() == self@.size()
    }

    pub open spec fn wf(&self) -> bool {
        self@.wf() && self.indexed()
    }

    pub fn new() -> (r: Self)
        ensures
            r.wf(),
            r@ == BookView::empty(),
    {
        broadcast use vstd::std_specs::hash::group_hash_axioms;

        let r = OrderBook { orders: HashMap::new(), bids: Vec::new(), asks: Vec::new() };
        assert(side_view(r.bids@) =~= Seq::empty());
        assert(side_view(r.asks@) =~= Seq::empty());
        assert(r.orders@.dom() =~= Set::empty());
        r
    }

    /// Whether a limit order of `side` at `price` would trade at once.
    fn can_match(&self, side: Side, price: Price) -> (r: bool)
        ensures
            r == self@.can_cross(side, price),
    {
        match side {
            Side::Buy => self.asks.len() > 0 && price >= self.asks[0].price,
            Side::Sell => self.bids.len() > 0 && price <= self.bids[0].price,
        }
    }

    /// Whether an order with id `order_id` is live.
    pub fn contains(&self, order_id: OrderId) -> (r: bool)
        requires
            self.wf(),
        ensures
            r == self@.has(order_id),
    {
        broadcast use vstd::std_specs::hash::group_hash_axioms;

        let r = self.orders.contains_key(&order_id);
        proof {
            if r {
                assert(self.orders@.contains_key(order_id));
                if self.orders@[order_id].side == Side::Buy {
                    assert(side_has(self@.bids, order_id));
                } else {
                    assert(side_has(self@.asks, order_id));
                }
            }
        }
        r
    }

    /// Number of live orders: the size of the identity index.
    pub fn size(&self) -> (r: usize)
        requires
            self.wf(),
        ensures
            r == self@.size(),
    {
        broadcast use vstd::std_specs::hash::group_hash_axioms;

        self.orders.len()
    }

    /// Resolves an id through the index to its side, level and place.
    fn locate(&self, order_id: OrderId) -> (r: Option<(Side, usize, usize)>)
        requires
            self.wf(),
        ensures
            match r {
                Some((s, i, j)) => valid_pos(self@.side(s), i as int, j as int)
                    && self@.side(s)[i as int].orders[j as int].order_id == order_id,
                None => !self@.has(order_id),
            },
    {
        broadcast use vstd::std_specs::hash::group_hash_axioms;

        match self.orders.get(&order_id) {
            None => None,
            Some(loc) => {
                let s = loc.side;
                let levels = match s {
                    Side::Buy => &self.bids,
                    Side::Sell => &self.asks,
                };
                let ghost v = self@.side(s);
                assert(side_view(levels@) == v);
                proof {
                    assert(self.orders@.contains_key(order_id) && self.orders@[order_id].side == s);
                    assert(side_has(v, order_id));
                    lemma_position_of(v, order_id);
                    let p = position(v, order_id);
                    assert(resting_ok(v[p.0].orders[p.1], s, v[p.0].price));
                    assert(v[p.0].price == loc.price);
                }
                match find_level(levels, loc.price) {
                    None => None,
                    Some(i) => {
                        proof {
                            let p = position(v, order_id);
                            assert(better(s, v[i as int].price, v[p.0].price) || better(s, v[p.0].price, v[i as int].price) || i == p.0);
                        }
                        match find_in_level(&levels[i], order_id) {
                            None => None,
                            Some(j) => Some((s, i, j)),
                        }
                    },
                }
            },
        }
    }

    /// The live order with id `order_id`, found through the index.
    pub fn get_order(&self, order_id: OrderId) -> (r: Option<Order>)
        requires
            self.wf(),
        ensures
            r is Some <==> self@.has(order_id),
            r is Some ==> r->0 == self@.order(order_id),
    {
        match self.locate(order_id) {
            None => None,
            Some((s, i, j)) => {
                proof {
                    lemma_position(self@.side(s), s, i as int, j as int);
                    if s == Side::Sell {
                        assert(side_has(self@.asks, order_id));
                    }
                }
                match s {
                    Side::Buy => Some(self.bids[i].orders[j]),
                    Side::Sell => Some(self.asks[i].orders[j]),
                }
            },
        }
    }

    /// Every entry of the identity index resolves to the live order with
    /// that id, on the side and at the price the entry names; and every live
    /// order has an entry.
    pub proof fn lemma_index_resolves(&self, order_id: OrderId)
        requires
            self.wf(),
        ensures
            self.index().contains_key(order_id) <==> self@.has(order_id),
            self.index().contains_key(order_id) ==> self@.order(order_id).order_id == order_id
                && self@.order(order_id).side == self.index()[order_id].side
                && self@.order(order_id).price == self.index()[order_id].price,
    {
        let b = self@;
        if self.orders@.contains_key(order_id) {
            let s = self.orders@[order_id].side;
            assert(side_has(b.side(s), order_id));
            lemma_position_of(b.side(s), order_id);
            let p = position(b.side(s), order_id);
            assert(resting_ok(b.side(s)[p.0].orders[p.1], s, b.side(s)[p.0].price));
            if s == Side::Sell {
                assert(!side_has(b.bids, order_id));
            }
        }
    }

    /// Admits an order: matches it against the opposite side, then rests a
    /// good-till-cancel remainder. `None` when it is not admitted: its id is
    /// live already, or it is fill-and-kill and cannot trade at once.
    pub fn add_order(&mut self, order: Order) -> (r: Option<Trades>)
        requires
            old(self).wf(),
            order.is_fresh(),
        ensures
            final(self).wf(),
            trades_view(r) == old(self)@.add(order).0,
            final(self)@ == old(self)@.add(order).1,
    {
        broadcast use vstd::std_specs::hash::group_hash_axioms;

        if self.contains(order.order_id) {
            return None;
        }
        if order.order_type == OrderType::FillAndKill && !self.can_match(order.side, order.price) {
            return None;
        }
        let ghost b = self@;
        let ghost idx0 = self.orders@;
        let ghost s = order.side;
        let ghost os = order.side.opposite();
        proof {
            lemma_add(b, order);
            lemma_sweep(b.side(os), os, order);
        }
        let (trades, left) = match order.side {
            Side::Buy => sweep_side(&mut self.asks, Side::Sell, order, &mut self.orders),
            Side::Sell => sweep_side(&mut self.bids, Side::Buy, order, &mut self.orders),
        };
        let ghost matched = self@;
        let ghost idx1 = self.orders@;
        let ghost own = b.side(s);
        assert(matched == b.with_side(os, sweep(b.side(os), order).1));
        assert(matched.side(s) == own);
        proof {
            assert(os.opposite() == s);
            lemma_index_other_side(idx0, idx1, own, s);
        }
        if order.order_type == OrderType::GoodTillCancel && left.remaining_quantity > 0 {
            proof {
                lemma_slot_exists(own, s, left.price);
                lemma_rest(own, s, left, slot(own, s, left.price));
                assert(!side_has(own, order.order_id));
                assert(!side_has(matched.side(os), order.order_id));
                if idx1.contains_key(order.order_id) {
                    assert(idx1[order.order_id].side == s || idx1[order.order_id].side == os);
                }
                lemma_index_after_rest(idx1, own, s, left);
                lemma_index_other_side(idx1, idx1.insert(order.order_id, Locator { side: s, price: left.price }), matched.side(os), os);
            }
            self.orders.insert(order.order_id, Locator { side: order.side, price: left.price });
            match order.side {
                Side::Buy => rest_in_side(&mut self.bids, Side::Buy, left),
                Side::Sell => rest_in_side(&mut self.asks, Side::Sell, left),
            }
            assert(self@ == matched.with_side(s, rest(own, s, left)));
        }
        Some(trades)
    }

    /// Takes the order with id `order_id` off the book; an unknown id
    /// changes nothing.
    pub fn cancel_order(&mut self, order_id: OrderId)
        requires
            old(self).wf(),
        ensures
            final(self).wf(),
            final(self)@ == old(self)@.cancel(order_id),
    {
        broadcast use vstd::std_specs::hash::group_hash_axioms;

        proof {
            lemma_cancel(self@, order_id);
        }
        match self.locate(order_id) {
            None => {},
            Some((s, i, j)) => {
                let ghost b = self@;
                let ghost idx0 = self.orders@;
                proof {
                    lemma_position(b.side(s), s, i as int, j as int);
                    lemma_index_after_remove(idx0, b.side(s), s, i as int, j as int);
                    lemma_index_other_side(idx0, idx0.remove(order_id), b.side(s.opposite()), s.opposite());
                    assert(s.opposite().opposite() == s);
                    if s == Side::Sell {
                        assert(side_has(b.asks, order_id));
                    }
                }
                match s {
                    Side::Buy => remove_from_side(&mut self.bids, i, j),
                    Side::Sell => remove_from_side(&mut self.asks, i, j),
                }
                let _ = self.orders.remove(&order_id);
                assert(self@ == b.with_side(s, remove_at(b.side(s), i as int, j as int)));
            },
        }
    }

    /// Replaces the side, price and quantity of a live order, which keeps
    /// its type and goes to the back of the queue at its new price. `None`
    /// for an unknown id.
    pub fn modify_order(&mut self, order: OrderModify) -> (r: Option<Trades>)
        requires
            old(self).wf(),
            order.quantity > 0,
        ensures
            final(self).wf(),
            trades_view(r) == old(self)@.modify(order).0,
            final(self)@ == old(self)@.modify(order).1,
    {
        match self.get_order(order.order_id) {
            None => None,
            Some(existing) => {
                let order_type = existing.order_type;
                self.cancel_order(order.order_id);
                self.add_order(order.to_order_pointer(order_type))
            },
        }
    }

    /// Depth: one row per level, bids best first and asks best first, each
    /// with the total remaining quantity there.
    pub fn get_orderlevelinfos(&self) -> (r: OrderbookLevelInfos)
        requires
            self.wf(),
        ensures
            r@ == (depth(self@.bids), depth(self@.asks)),
    {
        let bids = depth_of(&self.bids);
        let asks = depth_of(&self.asks);
        OrderbookLevelInfos::new(bids, asks)
    }
}

fn depth_of(levels: &Vec<PriceLevel>) -> (r: Vec<LevelInfo>)
    ensures
        r@ == depth(side_view(levels@)),
{
    let mut rows: Vec<LevelInfo> = Vec::new();
    let mut i: usize = 0;
    while i < levels.len()
        invariant
            i <= levels@.len(),
            rows@ == depth(side_view(levels@)).take(i as int),
        decreases levels@.len() - i,
    {
        let quantity = level_volume(&levels[i]);
        rows.push(LevelInfo::new(levels[i].price, quantity));
        assert(rows@ =~= depth(side_view(levels@)).take(i as int + 1));
        i = i + 1;
    }
    assert(depth(side_view(levels@)).take(i as int) =~= depth(side_view(levels@)));
    rows
}

} // verus!

use vstd::prelude::*;
use crate::types::{OrderId, Price, Volume};
use crate::levelinfos::LevelInfo;
use crate::modifyorder::OrderModify;
use crate::order::Order;
use crate::ordertypes::OrderType;
use crate::side::Side;
use crate::book_side::{
    lemma_position_of, lemma_remove_at, lemma_rest, lemma_sweep, position, remove_at, rest,
    side_count, side_has, side_wf, slot, lemma_slot_exists, sweep, volume, LevelView, reaches,
};
use crate::trade::Trade;

verus! {

/// The book as values: bid levels highest price first, ask levels lowest
/// price first, each level oldest order first.
pub struct BookView {
    pub bids: Seq<LevelView>,
    pub asks: Seq<LevelView>,
}

impl BookView {
    pub open spec fn empty() -> BookView {
        BookView { bids: Seq::empty(), asks: Seq::empty() }
    }

    pub open spec fn side(self, s: Side) -> Seq<LevelView> {
        match s {
            Side::Buy => self.bids,
            Side::Sell => self.asks,
        }
    }

    pub open spec fn with_side(self, s: Side, levels: Seq<LevelView>) -> BookView {
        match s {
            Side::Buy => BookView { bids: levels, ..self },
            Side::Sell => BookView { asks: levels, ..self },
        }
    }

    /// An order with this id is live on the book.
    pub open spec fn has(self, id: OrderId) -> bool {
        side_has(self.bids, id) || side_has(self.asks, id)
    }

    /// Number of live orders.
    pub open spec fn size(self) -> nat {
        side_count(self.bids) + side_count(self.asks)
    }

    /// Both sides well formed, no id on both, and the book uncrossed.
    pub open spec fn wf(self) -> bool {
        &&& side_wf(self.bids, Side::Buy)
        &&& side_wf(self.asks, Side::Sell)
        &&& forall|id: OrderId| !(#[trigger] side_has(self.bids, id) && side_has(self.asks, id))
        &&& self.bids.len() > 0 && self.asks.len() > 0 ==> self.bids[0].price < self.asks[0].price
    }

    /// A limit order of `side` at `price` would trade at once.
    pub open spec fn can_cross(self, side: Side, price: Price) -> bool {
        match side {
            Side::Buy => self.asks.len() > 0 && price >= self.asks[0].price,
            Side::Sell => self.bids.len() > 0 && price <= self.bids[0].price,
        }
    }

    /// Admission of `o`: the trades (none when it is not admitted) and the
    /// book afterwards. The incoming order is matched before it may rest;
    /// only a good-till-cancel remainder rests, last at its price.
    pub open spec fn add(self, o: Order) -> (Option<Seq<Trade>>, BookView) {
        if self.has(o.order_id) {
            (None, self)
        } else if o.order_type == OrderType::FillAndKill && !self.can_cross(o.side, o.price) {
            (None, self)
        } else {
            let swept = sweep(self.side(o.side.opposite()), o);
            let matched = self.with_side(o.side.opposite(), swept.1);
            let left = swept.2;
            if o.order_type == OrderType::GoodTillCancel && left.remaining_quantity > 0 {
                (Some(swept.0), matched.with_side(o.side, rest(matched.side(o.side), o.side, left)))
            } else {
                (Some(swept.0), matched)
            }
        }
    }

    /// The book without the order with id `id`, if it is live.
    pub open spec fn cancel(self, id: OrderId) -> BookView {
        if side_has(self.bids, id) {
            let p = position(self.bids, id);
            self.with_side(Side::Buy, remove_at(self.bids, p.0, p.1))
        } else if side_has(self.asks, id) {
            let p = position(self.asks, id);
            self.with_side(Side::Sell, remove_at(self.asks, p.0, p.1))
        } else {
            self
        }
    }

    /// The live order with id `id`.
    pub open spec fn order(self, id: OrderId) -> Order {
        if side_has(self.bids, id) {
            let p = position(self.bids, id);
            self.bids[p.0].orders[p.1]
        } else {
            let p = position(self.asks, id);
            self.asks[p.0].orders[p.1]
        }
    }

    /// Modification: not admitted for an unknown id; otherwise the order is
    /// cancelled and admitted again, with its type, as a fresh order.
    pub open spec fn modify(self, m: OrderModify) -> (Option<Seq<Trade>>, BookView) {
        if !self.has(m.order_id) {
            (None, self)
        } else {
            self.cancel(m.order_id).add(m.as_order(self.order(m.order_id).order_type))
        }
    }
}

/// One row of depth per level: its price and the sum of what remains there.
pub open spec fn depth(levels: Seq<LevelView>) -> Seq<LevelInfo> {
    Seq::new(levels.len(), |i: int| LevelInfo { price: levels[i].price, quantity: volume(levels[i].orders) as Volume })
}

/// Cancelling keeps the book well formed and takes off exactly the one id.
pub proof fn lemma_cancel(b: BookView, id: OrderId)
    requires
        b.wf(),
    ensures
        b.cancel(id).wf(),
        forall|x: OrderId| #[trigger] b.cancel(id).has(x) <==> (b.has(x) && x != id),
        b.cancel(id).size() + (if b.has(id) { 1int } else { 0 }) == b.size(),
{
    let c = b.cancel(id);
    if side_has(b.bids, id) {
        lemma_position_of(b.bids, id);
        let (i, j) = position(b.bids, id);
        lemma_remove_at(b.bids, Side::Buy, i, j);
        assert(c.bids == remove_at(b.bids, i, j) && c.asks == b.asks);
        assert forall|x: OrderId| !(#[trigger] side_has(c.bids, x) && side_has(c.asks, x)) by {
            if side_has(c.bids, x) {
                assert(side_has(b.bids, x));
            }
        }
        assert forall|x: OrderId| #[trigger] c.has(x) <==> (b.has(x) && x != id) by {
            if side_has(b.asks, x) && x == id {
                assert(side_has(b.bids, x));
            }
        }
    } else if side_has(b.asks, id) {
        lemma_position_of(b.asks, id);
        let (i, j) = position(b.asks, id);
        lemma_remove_at(b.asks, Side::Sell, i, j);
        assert(c.asks == remove_at(b.asks, i, j) && c.bids == b.bids);
        assert forall|x: OrderId| !(#[trigger] side_has(c.bids, x) && side_has(c.asks, x)) by {
            if side_has(c.asks, x) {
                assert(side_has(b.asks, x));
            }
        }
        assert forall|x: OrderId| #[trigger] c.has(x) <==> (b.has(x) && x != id) by {}
    } else {
        assert forall|x: OrderId| #[trigger] c.has(x) <==> (b.has(x) && x != id) by {}
    }
}

/// Admission keeps the book well formed.
pub proof fn lemma_add(b: BookView, o: Order)
    requires
        b.wf(),
        o.is_fresh(),
    ensures
        b.add(o).1.wf(),
{
    if b.has(o.order_id) {
    } else if o.order_type == OrderType::FillAndKill && !b.can_cross(o.side, o.price) {
    } else {
        let os = o.side.opposite();
        let opp = b.side(os);
        let own = b.side(o.side);
        lemma_sweep(opp, os, o);
        let swept = sweep(opp, o);
        let after = swept.1;
        let left = swept.2;
        let matched = b.with_side(os, after);
        assert(matched.side(o.side) == own);
        assert(matched.side(os) == after);
        assert forall|x: OrderId| #[trigger] side_has(after, x) implies side_has(opp, x) by {}
        assert(after.len() > 0 ==> opp.len() > 0);
        assert forall|x: OrderId| !(#[trigger] side_has(matched.bids, x) && side_has(matched.asks, x)) by {
            if o.side == Side::Buy {
                if side_has(matched.asks, x) {
                    assert(side_has(b.asks, x));
                }
            } else {
                if side_has(matched.bids, x) {
                    assert(side_has(b.bids, x));
                }
            }
        }
        assert(matched.wf());
        if o.order_type == OrderType::GoodTillCancel && left.remaining_quantity > 0 {
            let r = b.add(o).1;
            assert(!side_has(own, o.order_id));
            assert(!side_has(after, o.order_id));
            lemma_slot_exists(own, o.side, left.price);
            lemma_rest(own, o.side, left, slot(own, o.side, left.price));
            let grown = rest(own, o.side, left);
            assert(r == matched.with_side(o.side, grown));
            assert(r.side(o.side) == grown && r.side(os) == after);
            assert(after.len() == 0 || !reaches(left, after[0].price));
            assert forall|x: OrderId| !(#[trigger] side_has(r.bids, x) && side_has(r.asks, x)) by {
                if side_has(grown, x) && side_has(after, x) {
                    assert(side_has(opp, x));
                    if x != o.order_id {
                        assert(side_has(own, x));
                    }
                }
            }
            assert(r.wf());
        }
    }
}

} // verus!

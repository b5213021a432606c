use vstd::prelude::*;
use crate::bookview::{lemma_add, lemma_cancel, BookView};
use crate::types::OrderId;
use crate::modifyorder::OrderModify;
use crate::order::Order;
use crate::ordertypes::OrderType;
use crate::side::Side;
use crate::book_side::{
    better, fill_front, lemma_position, lemma_position_of, lemma_remove_at, lemma_rest, lemma_slot_exists,
    position, remove_at, rest, resting_ok, side_has, side_wf, slot, sweep, valid_pos, LevelView,
};
use crate::trade::Trade;

verus! {

/// Every live order has some quantity left and never more than it started
/// with; every level holds at least one order, all of the level's side and
/// price.
pub proof fn law_live_orders(b: BookView, s: Side, i: int, j: int)
    requires
        b.wf(),
        valid_pos(b.side(s), i, j),
    ensures
        0 < b.side(s)[i].orders[j].remaining_quantity <= b.side(s)[i].orders[j].initial_quantity,
        b.side(s)[i].orders.len() > 0,
        b.side(s)[i].orders[j].side == s,
        b.side(s)[i].orders[j].price == b.side(s)[i].price,
{
    assert(resting_ok(b.side(s)[i].orders[j], s, b.side(s)[i].price));
}

/// Admission, cancellation and modification all keep the book well formed:
/// live orders valid, levels non-empty, sorted and homogeneous, ids unique,
/// and the book uncrossed.
pub proof fn law_operations_keep_invariants(b: BookView, o: Order, id: OrderId, m: OrderModify)
    requires
        b.wf(),
        o.is_fresh(),
        m.quantity > 0,
    ensures
        b.add(o).1.wf(),
        b.cancel(id).wf(),
        b.modify(m).1.wf(),
{
    lemma_add(b, o);
    lemma_cancel(b, id);
    lemma_cancel(b, m.order_id);
    if b.has(m.order_id) {
        lemma_add(b.cancel(m.order_id), m.as_order(b.order(m.order_id).order_type));
    }
}

/// On a well-formed book the best bid is strictly below the best ask.
pub proof fn law_uncrossed(b: BookView)
    requires
        b.wf(),
        b.bids.len() > 0,
        b.asks.len() > 0,
    ensures
        b.bids[0].price < b.asks[0].price,
{
}

/// The order found for a live id has that id and stands on its own side at
/// a level of its own price.
pub proof fn law_locator(b: BookView, id: OrderId)
    requires
        b.wf(),
        b.has(id),
    ensures
        b.order(id).order_id == id,
        ({
            let s = b.order(id).side;
            let p = position(b.side(s), id);
            &&& valid_pos(b.side(s), p.0, p.1)
            &&& b.side(s)[p.0].orders[p.1] == b.order(id)
            &&& b.side(s)[p.0].price == b.order(id).price
        }),
{
    if side_has(b.bids, id) {
        lemma_position_of(b.bids, id);
        let p = position(b.bids, id);
        assert(resting_ok(b.bids[p.0].orders[p.1], Side::Buy, b.bids[p.0].price));
    } else {
        lemma_position_of(b.asks, id);
        let p = position(b.asks, id);
        assert(resting_ok(b.asks[p.0].orders[p.1], Side::Sell, b.asks[p.0].price));
    }
}

/// Cancelling an unknown id changes nothing, and cancelling twice is the
/// same as cancelling once.
pub proof fn law_cancel_idempotent(b: BookView, id: OrderId)
    requires
        b.wf(),
    ensures
        !b.has(id) ==> b.cancel(id) == b,
        b.cancel(id).cancel(id) == b.cancel(id),
{
    lemma_cancel(b, id);
    assert(!b.cancel(id).has(id));
}

/// Admitting an order whose id is live is refused and changes nothing.
pub proof fn law_duplicate_refused(b: BookView, o: Order)
    requires
        b.has(o.order_id),
    ensures
        b.add(o) == (None::<Seq<Trade>>, b),
{
}

/// Modifying a live order is cancelling it and admitting the replacement,
/// keeping the type of the order it replaces.
pub proof fn law_modify_is_cancel_then_add(b: BookView, m: OrderModify)
    requires
        b.has(m.order_id),
    ensures
        b.modify(m) == b.cancel(m.order_id).add(m.as_order(b.order(m.order_id).order_type)),
{
}

/// A market order facing an empty side trades nothing and does not rest.
pub proof fn law_market_on_empty_side(b: BookView, o: Order)
    requires
        !b.has(o.order_id),
        o.order_type == OrderType::Market,
        b.side(o.side.opposite()).len() == 0,
    ensures
        b.add(o) == (Some(Seq::<Trade>::empty()), b),
{
    let os = o.side.opposite();
    assert(b.with_side(os, b.side(os)) == b);
}

/// Neither a fill-and-kill nor a market order is live after its admission:
/// what did not fill at once is dropped.
pub proof fn law_immediate_orders_never_rest(b: BookView, o: Order)
    requires
        b.wf(),
        !b.has(o.order_id),
        o.order_type != OrderType::GoodTillCancel,
    ensures
        !b.add(o).1.has(o.order_id),
{
    let os = o.side.opposite();
    crate::book_side::lemma_sweep(b.side(os), os, o);
    let after = sweep(b.side(os), o).1;
    if side_has(after, o.order_id) {
        assert(side_has(b.side(os), o.order_id));
    }
}

/// Filling exactly what remains of the best order takes it off the side,
/// and takes its level off too when it was the level's only order.
pub proof fn law_exact_fill_removes(levels: Seq<LevelView>, s: Side)
    requires
        side_wf(levels, s),
        levels.len() > 0,
    ensures
        ({
            let o = levels[0].orders[0];
            let after = fill_front(levels, o.remaining_quantity);
            &&& !side_has(after, o.order_id)
            &&& levels[0].orders.len() == 1 ==> after == levels.drop_first()
        }),
{
    assert(valid_pos(levels, 0, 0));
    lemma_remove_at(levels, s, 0, 0);
    if levels[0].orders.len() == 1 {
        assert(levels.remove(0) =~= levels.drop_first());
    }
}


/// Resting an order and then taking it off gives the side back.
proof fn lemma_rest_then_remove(levels: Seq<LevelView>, s: Side, o: Order)
    requires
        side_wf(levels, s),
        resting_ok(o, s, o.price),
        !side_has(levels, o.order_id),
    ensures
        side_has(rest(levels, s, o), o.order_id),
        ({
            let grown = rest(levels, s, o);
            let p = position(grown, o.order_id);
            remove_at(grown, p.0, p.1) == levels
        }),
{
    lemma_slot_exists(levels, s, o.price);
    let k = slot(levels, s, o.price);
    lemma_rest(levels, s, o, k);
    let grown = rest(levels, s, o);
    if k < levels.len() && levels[k].price == o.price {
        let n = levels[k].orders.len() as int;
        assert(valid_pos(grown, k, n) && grown[k].orders[n] == o);
        lemma_position(grown, s, k, n);
        assert(grown[k].orders.remove(n) =~= levels[k].orders);
        assert(remove_at(grown, k, n) =~= levels);
    } else {
        assert(valid_pos(grown, k, 0) && grown[k].orders[0] == o);
        lemma_position(grown, s, k, 0);
        assert(grown[k].orders.remove(0) =~= Seq::<Order>::empty());
        assert(remove_at(grown, k, 0) =~= levels);
    }
}

/// Admitting an order that cannot trade and then cancelling it gives the
/// book back as it was, so size and depth too.
pub proof fn law_add_then_cancel(b: BookView, o: Order)
    requires
        b.wf(),
        o.is_fresh(),
        !b.has(o.order_id),
        o.order_type != OrderType::Market ==> !b.can_cross(o.side, o.price),
        o.order_type == OrderType::Market ==> b.side(o.side.opposite()).len() == 0,
    ensures
        b.add(o).1.cancel(o.order_id) == b,
{
    let os = o.side.opposite();
    let opp = b.side(os);
    assert(sweep(opp, o) == (Seq::<Trade>::empty(), opp, o));
    let matched = b.with_side(os, opp);
    assert(matched == b);
    if o.order_type == OrderType::GoodTillCancel {
        let own = b.side(o.side);
        lemma_rest_then_remove(own, o.side, o);
        let grown = rest(own, o.side, o);
        let r = b.with_side(o.side, grown);
        assert(b.add(o).1 == r);
        if o.side == Side::Sell {
            assert(!side_has(r.bids, o.order_id));
        }
        let p = position(grown, o.order_id);
        assert(r.cancel(o.order_id) == b.with_side(o.side, remove_at(grown, p.0, p.1)));
    }
}

/// A live order's price is never better than its side's best price.
proof fn lemma_best_is_best(levels: Seq<LevelView>, s: Side, i: int)
    requires
        side_wf(levels, s),
        0 <= i < levels.len(),
    ensures
        levels[i].price == levels[0].price || better(s, levels[0].price, levels[i].price),
{
}

/// Modifying a live order to its own side and price trades nothing and
/// puts it last in time priority at that price.
pub proof fn law_modify_requeues(b: BookView, m: OrderModify)
    requires
        b.wf(),
        b.has(m.order_id),
        m.side == b.order(m.order_id).side,
        m.price == b.order(m.order_id).price,
        m.quantity > 0,
    ensures
        b.modify(m).0 == Some(Seq::<Trade>::empty()),
        ({
            let after = b.modify(m).1.side(m.side);
            let k = slot(b.cancel(m.order_id).side(m.side), m.side, m.price);
            &&& 0 <= k < after.len()
            &&& after[k].price == m.price
            &&& after[k].orders.last() == m.as_order(OrderType::GoodTillCancel)
        }),
{
    let id = m.order_id;
    let s = m.side;
    let os = s.opposite();
    law_locator(b, id);
    let p = position(b.side(s), id);
    assert(resting_ok(b.side(s)[p.0].orders[p.1], s, b.side(s)[p.0].price));
    let o = m.as_order(OrderType::GoodTillCancel);
    assert(b.order(id).order_type == OrderType::GoodTillCancel);
    lemma_cancel(b, id);
    let c = b.cancel(id);
    assert(!c.has(id));
    assert(side_has(b.side(s), id));
    assert(!side_has(b.side(os), id));
    assert(c.side(os) == b.side(os));
    lemma_best_is_best(b.side(s), s, p.0);
    let opp = c.side(os);
    if opp.len() > 0 {
        if s == Side::Buy {
            assert(m.price < opp[0].price);
        } else {
            assert(m.price > opp[0].price);
        }
    }
    assert(sweep(opp, o) == (Seq::<Trade>::empty(), opp, o));
    assert(c.with_side(os, opp) == c);
    let own = c.side(s);
    lemma_slot_exists(own, s, o.price);
    let k = slot(own, s, o.price);
    lemma_rest(own, s, o, k);
    assert(b.modify(m).1 == c.with_side(s, rest(own, s, o)));
}

/// A buy at exactly the best ask trades; one tick below it does not.
pub proof fn law_crossing_boundary(b: BookView, o: Order)
    requires
        b.wf(),
        o.is_fresh(),
        !b.has(o.order_id),
        o.order_type == OrderType::GoodTillCancel,
        o.side == Side::Buy,
        b.asks.len() > 0,
    ensures
        o.price == b.asks[0].price ==> b.add(o).0 is Some && b.add(o).0->0.len() > 0,
        o.price == b.asks[0].price - 1 ==> b.add(o).0 == Some(Seq::<Trade>::empty()),
{
    assert(valid_pos(b.asks, 0, 0));
    assert(resting_ok(b.asks[0].orders[0], Side::Sell, b.asks[0].price));
    if o.price == b.asks[0].price {
        let q = crate::types::min_qty(o.remaining_quantity, b.asks[0].orders[0].remaining_quantity);
        assert(q > 0);
        assert(sweep(b.asks, o).0.len() > 0);
    }
    if o.price == b.asks[0].price - 1 {
        assert(sweep(b.asks, o) == (Seq::<Trade>::empty(), b.asks, o));
    }
}


/// An admitted order that cannot trade goes last at its price: the level
/// keeps its earlier orders in their order and gains the new one behind them.
pub proof fn law_rests_in_arrival_order(b: BookView, o: Order)
    requires
        b.wf(),
        o.is_fresh(),
        !b.has(o.order_id),
        o.order_type == OrderType::GoodTillCancel,
        !b.can_cross(o.side, o.price),
    ensures
        ({
            let before = b.side(o.side);
            let after = b.add(o).1.side(o.side);
            let k = slot(before, o.side, o.price);
            &&& 0 <= k < after.len()
            &&& after[k].price == o.price
            &&& after[k].orders.last() == o
            &&& after[k].orders.drop_last() == (if k < before.len() && before[k].price == o.price {
                before[k].orders
            } else {
                Seq::<Order>::empty()
            })
        }),
{
    let os = o.side.opposite();
    let opp = b.side(os);
    assert(sweep(opp, o) == (Seq::<Trade>::empty(), opp, o));
    assert(b.with_side(os, opp) == b);
    let own = b.side(o.side);
    lemma_slot_exists(own, o.side, o.price);
    let k = slot(own, o.side, o.price);
    lemma_rest(own, o.side, o, k);
    let after = rest(own, o.side, o);
    assert(b.add(o).1.side(o.side) == after);
    if k < own.len() && own[k].price == o.price {
        assert(after[k].orders.drop_last() =~= own[k].orders);
    } else {
        assert(after[k].orders.drop_last() =~= Seq::<Order>::empty());
    }
}

} // verus!

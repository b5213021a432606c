use orderbook_rs::{Order, OrderBook, OrderModify, OrderType, Side, Trade, TradeInfo};

fn gtc(id: u64, side: Side, price: i64, qty: u32) -> Order {
    Order::new(id, OrderType::GoodTillCancel, side, price, qty)
}

fn fak(id: u64, side: Side, price: i64, qty: u32) -> Order {
    Order::new(id, OrderType::FillAndKill, side, price, qty)
}

fn market(id: u64, side: Side, qty: u32) -> Order {
    Order::new(id, OrderType::Market, side, 0, qty)
}

fn trade(bid: (u64, i64, u32), ask: (u64, i64, u32)) -> Trade {
    Trade::new(TradeInfo::new(bid.0, bid.1, bid.2), TradeInfo::new(ask.0, ask.1, ask.2))
}

fn depth(book: &OrderBook) -> (Vec<(i64, u128)>, Vec<(i64, u128)>) {
    let infos = book.get_orderlevelinfos();
    let bids = infos.get_bids().iter().map(|l| (l.price, l.quantity)).collect();
    let asks = infos.get_asks().iter().map(|l| (l.price, l.quantity)).collect();
    (bids, asks)
}

#[test]
fn simple_cross() {
    let mut book = OrderBook::new();
    assert_eq!(book.add_order(gtc(1, Side::Buy, 100, 10)), Some(vec![]));
    let trades = book.add_order(gtc(2, Side::Sell, 100, 10)).unwrap();
    assert_eq!(trades, vec![trade((1, 100, 10), (2, 100, 10))]);
    assert_eq!(book.size(), 0);
    assert_eq!(depth(&book), (vec![], vec![]));
}

#[test]
fn price_time_priority() {
    let mut book = OrderBook::new();
    book.add_order(gtc(1, Side::Buy, 100, 5)).unwrap();
    book.add_order(gtc(2, Side::Buy, 100, 5)).unwrap();
    let trades = book.add_order(gtc(3, Side::Sell, 100, 7)).unwrap();
    assert_eq!(trades, vec![trade((1, 100, 5), (3, 100, 5)), trade((2, 100, 2), (3, 100, 2))]);
    assert_eq!(book.size(), 1);
    let left = book.get_order(2).unwrap();
    assert_eq!(left.get_remaining_quantity(), 3);
    assert_eq!(left.get_side(), Side::Buy);
    assert_eq!(depth(&book), (vec![(100, 3)], vec![]));
}

#[test]
fn ioc_not_crossable() {
    let mut book = OrderBook::new();
    assert_eq!(book.add_order(fak(1, Side::Buy, 100, 4)), None);
    assert_eq!(book.size(), 0);
    assert_eq!(depth(&book), (vec![], vec![]));
}

#[test]
fn ioc_partial() {
    let mut book = OrderBook::new();
    book.add_order(gtc(1, Side::Sell, 101, 3)).unwrap();
    let trades = book.add_order(fak(2, Side::Buy, 101, 10)).unwrap();
    assert_eq!(trades, vec![trade((2, 101, 3), (1, 101, 3))]);
    assert!(!book.contains(2));
    assert_eq!(book.size(), 0);
    assert_eq!(depth(&book), (vec![], vec![]));
}

#[test]
fn market_sweep() {
    let mut book = OrderBook::new();
    book.add_order(gtc(1, Side::Sell, 101, 4)).unwrap();
    book.add_order(gtc(2, Side::Sell, 102, 5)).unwrap();
    let trades = book.add_order(market(3, Side::Buy, 7)).unwrap();
    assert_eq!(trades, vec![trade((3, 101, 4), (1, 101, 4)), trade((3, 102, 3), (2, 102, 3))]);
    assert_eq!(book.size(), 1);
    assert_eq!(book.get_order(2).unwrap().get_remaining_quantity(), 2);
    assert!(!book.contains(3));
    assert_eq!(depth(&book), (vec![], vec![(102, 2)]));
}

#[test]
fn modify_loses_priority() {
    let mut book = OrderBook::new();
    book.add_order(gtc(1, Side::Buy, 100, 5)).unwrap();
    book.add_order(gtc(2, Side::Buy, 100, 5)).unwrap();
    assert_eq!(book.modify_order(OrderModify::new(1, Side::Buy, 100, 5)), Some(vec![]));
    let trades = book.add_order(gtc(3, Side::Sell, 100, 5)).unwrap();
    assert_eq!(trades, vec![trade((2, 100, 5), (3, 100, 5))]);
    assert!(book.contains(1));
    assert!(!book.contains(2));
}

#[test]
fn market_sell_fills_bid_side() {
    let mut book = OrderBook::new();
    book.add_order(gtc(1, Side::Buy, 99, 2)).unwrap();
    book.add_order(gtc(2, Side::Buy, 98, 4)).unwrap();
    let trades = book.add_order(market(3, Side::Sell, 5)).unwrap();
    assert_eq!(trades, vec![trade((1, 99, 2), (3, 99, 2)), trade((2, 98, 3), (3, 98, 3))]);
    assert_eq!(depth(&book), (vec![(98, 1)], vec![]));
}

#[test]
fn market_on_empty_side_does_nothing() {
    let mut book = OrderBook::new();
    book.add_order(gtc(1, Side::Buy, 99, 2)).unwrap();
    assert_eq!(book.add_order(market(2, Side::Buy, 5)), Some(vec![]));
    assert_eq!(book.size(), 1);
    assert!(!book.contains(2));
    assert_eq!(depth(&book), (vec![(99, 2)], vec![]));
}

#[test]
fn market_residual_is_discarded() {
    let mut book = OrderBook::new();
    book.add_order(gtc(1, Side::Sell, 101, 2)).unwrap();
    let trades = book.add_order(market(2, Side::Buy, 5)).unwrap();
    assert_eq!(trades, vec![trade((2, 101, 2), (1, 101, 2))]);
    assert_eq!(book.size(), 0);
}

#[test]
fn crossing_limit_keeps_each_sides_price() {
    let mut book = OrderBook::new();
    book.add_order(gtc(1, Side::Sell, 100, 3)).unwrap();
    let trades = book.add_order(gtc(2, Side::Buy, 105, 5)).unwrap();
    assert_eq!(trades, vec![trade((2, 105, 3), (1, 100, 3))]);
    assert_eq!(depth(&book), (vec![(105, 2)], vec![]));
}

#[test]
fn buy_at_best_ask_crosses_one_tick_below_does_not() {
    let mut book = OrderBook::new();
    book.add_order(gtc(1, Side::Sell, 101, 3)).unwrap();
    assert_eq!(book.add_order(gtc(2, Side::Buy, 100, 1)), Some(vec![]));
    let trades = book.add_order(gtc(3, Side::Buy, 101, 1)).unwrap();
    assert_eq!(trades, vec![trade((3, 101, 1), (1, 101, 1))]);
    assert_eq!(depth(&book), (vec![(100, 1)], vec![(101, 2)]));
}

#[test]
fn cancel_after_add_restores_size_and_depth() {
    let mut book = OrderBook::new();
    book.add_order(gtc(1, Side::Buy, 100, 5)).unwrap();
    book.add_order(gtc(2, Side::Sell, 103, 5)).unwrap();
    let before = depth(&book);
    book.add_order(gtc(3, Side::Buy, 101, 7)).unwrap();
    assert_eq!(book.size(), 3);
    book.cancel_order(3);
    assert_eq!(book.size(), 2);
    assert_eq!(depth(&book), before);
}

#[test]
fn cancel_unknown_and_twice_are_no_ops() {
    let mut book = OrderBook::new();
    book.add_order(gtc(1, Side::Buy, 100, 5)).unwrap();
    book.add_order(gtc(2, Side::Buy, 100, 6)).unwrap();
    book.cancel_order(42);
    assert_eq!(book.size(), 2);
    book.cancel_order(1);
    let once = depth(&book);
    book.cancel_order(1);
    assert_eq!(book.size(), 1);
    assert_eq!(depth(&book), once);
    assert_eq!(once, (vec![(100, 6)], vec![]));
}

#[test]
fn cancel_from_middle_of_level_keeps_fifo() {
    let mut book = OrderBook::new();
    book.add_order(gtc(1, Side::Sell, 100, 1)).unwrap();
    book.add_order(gtc(2, Side::Sell, 100, 1)).unwrap();
    book.add_order(gtc(3, Side::Sell, 100, 1)).unwrap();
    book.cancel_order(2);
    let trades = book.add_order(gtc(4, Side::Buy, 100, 2)).unwrap();
    assert_eq!(trades, vec![trade((4, 100, 1), (1, 100, 1)), trade((4, 100, 1), (3, 100, 1))]);
    assert_eq!(book.size(), 0);
}

#[test]
fn duplicate_id_is_refused() {
    let mut book = OrderBook::new();
    book.add_order(gtc(1, Side::Buy, 100, 5)).unwrap();
    assert_eq!(book.add_order(gtc(1, Side::Sell, 90, 5)), None);
    assert_eq!(book.size(), 1);
    assert_eq!(depth(&book), (vec![(100, 5)], vec![]));
}

#[test]
fn modify_unknown_id_is_refused() {
    let mut book = OrderBook::new();
    book.add_order(gtc(1, Side::Buy, 100, 5)).unwrap();
    assert_eq!(book.modify_order(OrderModify::new(9, Side::Buy, 100, 5)), None);
    assert_eq!(book.size(), 1);
}

#[test]
fn modify_can_cross() {
    let mut book = OrderBook::new();
    book.add_order(gtc(1, Side::Buy, 100, 5)).unwrap();
    book.add_order(gtc(2, Side::Sell, 102, 3)).unwrap();
    let trades = book.modify_order(OrderModify::new(1, Side::Buy, 102, 4)).unwrap();
    assert_eq!(trades, vec![trade((1, 102, 3), (2, 102, 3))]);
    assert_eq!(book.get_order(1).unwrap().get_remaining_quantity(), 1);
    assert_eq!(book.get_order(1).unwrap().get_initial_quantity(), 4);
    assert_eq!(depth(&book), (vec![(102, 1)], vec![]));
}

#[test]
fn exact_fill_removes_order_and_level() {
    let mut book = OrderBook::new();
    book.add_order(gtc(1, Side::Sell, 100, 4)).unwrap();
    book.add_order(gtc(2, Side::Sell, 101, 4)).unwrap();
    let trades = book.add_order(gtc(3, Side::Buy, 100, 4)).unwrap();
    assert_eq!(trades.len(), 1);
    assert!(!book.contains(1));
    assert_eq!(depth(&book), (vec![], vec![(101, 4)]));
}

#[test]
fn depth_sums_levels_in_best_first_order() {
    let mut book = OrderBook::new();
    book.add_order(gtc(1, Side::Buy, 99, 1)).unwrap();
    book.add_order(gtc(2, Side::Buy, 100, 2)).unwrap();
    book.add_order(gtc(3, Side::Buy, 99, 3)).unwrap();
    book.add_order(gtc(4, Side::Sell, 105, 4)).unwrap();
    book.add_order(gtc(5, Side::Sell, 103, 5)).unwrap();
    book.add_order(gtc(6, Side::Sell, 103, u32::MAX)).unwrap();
    assert_eq!(
        depth(&book),
        (vec![(100, 2), (99, 4)], vec![(103, 5 + u32::MAX as u128), (105, 4)])
    );
    assert_eq!(book.size(), 6);
}

#[test]
fn live_orders_keep_valid_quantities() {
    let mut book = OrderBook::new();
    book.add_order(gtc(1, Side::Sell, 100, 10)).unwrap();
    book.add_order(gtc(2, Side::Buy, 100, 4)).unwrap();
    let o = book.get_order(1).unwrap();
    assert_eq!(o.get_remaining_quantity(), 6);
    assert_eq!(o.get_filled_quantity(), 4);
    assert!(!o.isfilled());
    assert!(o.get_remaining_quantity() > 0 && o.get_remaining_quantity() <= o.get_initial_quantity());
}

#[test]
fn book_stays_uncrossed() {
    let mut book = OrderBook::new();
    book.add_order(gtc(1, Side::Sell, 100, 3)).unwrap();
    book.add_order(gtc(2, Side::Sell, 102, 3)).unwrap();
    book.add_order(gtc(3, Side::Buy, 101, 5)).unwrap();
    let (bids, asks) = depth(&book);
    assert_eq!(bids, vec![(101, 2)]);
    assert_eq!(asks, vec![(102, 3)]);
    assert!(bids[0].0 < asks[0].0);
}

#[test]
fn order_fill_and_getters() {
    let mut o = gtc(7, Side::Sell, -5, 9);
    assert_eq!(o.get_order_id(), 7);
    assert_eq!(o.get_order_type(), OrderType::GoodTillCancel);
    assert_eq!(o.get_price(), -5);
    o.fill(9);
    assert!(o.isfilled());
    assert_eq!(o.get_filled_quantity(), 9);
    let m = OrderModify::new(7, Side::Buy, 3, 2);
    assert_eq!(m.get_order_id(), 7);
    assert_eq!(m.get_side(), Side::Buy);
    assert_eq!(m.get_price(), 3);
    assert_eq!(m.get_quantity(), 2);
    let r = m.to_order_pointer(OrderType::FillAndKill);
    assert_eq!(r, Order::new(7, OrderType::FillAndKill, Side::Buy, 3, 2));
    let t = trade((1, 2, 3), (4, 5, 6));
    assert_eq!(t.get_bid_trade().order_id, 1);
    assert_eq!(t.get_ask_trade().price, 5);
}

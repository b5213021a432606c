use vstd::prelude::*;
use crate::types::{OrderId, Price, Quantity};

verus! {

/// One side of an execution: which order, at what price, how much.
#[derive(Clone, Copy, Debug, PartialEq, Eq, Structural)]
pub struct TradeInfo {
    pub order_id: OrderId,
    pub price: Price,
    pub quantity: Quantity,
}

impl TradeInfo {
    pub fn new(order_id: OrderId, price: Price, quantity: Quantity) -> (r: Self)
        ensures
            r == (TradeInfo { order_id, price, quantity }),
    {
        TradeInfo { order_id, price, quantity }
    }
}

/// An execution between a buy order (the bid fill) and a sell order (the ask fill).
#[derive(Clone, Copy, Debug, PartialEq, Eq, Structural)]
pub struct Trade {
    pub bid_trade: TradeInfo,
    pub ask_trade: TradeInfo,
}

impl Trade {
    pub fn new(bid_trade: TradeInfo, ask_trade: TradeInfo) -> (r: Self)
        ensures
            r == (Trade { bid_trade, ask_trade }),
    {
        Trade { bid_trade, ask_trade }
    }

    pub fn get_bid_trade(&self) -> (r: &TradeInfo)
        ensures
            *r == self.bid_trade,
    {
        &self.bid_trade
    }

    pub fn get_ask_trade(&self) -> (r: &TradeInfo)
        ensures
            *r == self.ask_trade,
    {
        &self.ask_trade
    }
}

} // verus!

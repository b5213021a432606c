use vstd::prelude::*;
use crate::types::{Price, Volume};

verus! {

/// One row of a depth snapshot: a price and the quantity resting there.
#[derive(Clone, Copy, Debug, PartialEq, Eq, Structural)]
pub struct LevelInfo {
    pub price: Price,
    pub quantity: Volume,
}

impl LevelInfo {
    pub fn new(price: Price, quantity: Volume) -> (r: Self)
        ensures
            r == (LevelInfo { price, quantity }),
    {
        LevelInfo { price, quantity }
    }
}

/// A depth snapshot: bids best (highest) first, asks best (lowest) first.
pub struct OrderbookLevelInfos {
    bids: Vec<LevelInfo>,
    asks: Vec<LevelInfo>,
}

impl View for OrderbookLevelInfos {
    type V = (Seq<LevelInfo>, Seq<LevelInfo>);

    closed spec fn view(&self) -> (Seq<LevelInfo>, Seq<LevelInfo>) {
        (self.bids@, self.asks@)
    }
}

impl OrderbookLevelInfos {
    pub fn new(bids: Vec<LevelInfo>, asks: Vec<LevelInfo>) -> (r: Self)
        ensures
            r@ == (bids@, asks@),
    {
        OrderbookLevelInfos { bids, asks }
    }

    pub fn get_bids(&self) -> (r: &Vec<LevelInfo>)
        ensures
            r@ == self@.0,
    {
        &self.bids
    }

    pub fn get_asks(&self) -> (r: &Vec<LevelInfo>)
        ensures
            r@ == self@.1,
    {
        &self.asks
    }
}

} // verus!

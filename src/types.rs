use vstd::prelude::*;

verus! {

/// A price is an opaque, totally ordered key; the book never does arithmetic on it.
pub type Price = i64;

/// Quantity of a single order.
pub type Quantity = u32;

/// Aggregate quantity of a price level: wide enough for any number of orders.
pub type Volume = u128;

pub type OrderId = u64;

pub type Trades = Vec<crate::trade::Trade>;

pub open spec fn min_qty(a: Quantity, b: Quantity) -> Quantity {
    if a <= b { a } else { b }
}

} // verus!

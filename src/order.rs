use vstd::prelude::*;
use crate::types::{OrderId, Price, Quantity};
use crate::ordertypes::OrderType;
use crate::side::Side;

verus! {

/// One order and where it stands in its lifecycle. The price of a market
/// order is carried but never read.
#[derive(Clone, Copy, Debug, PartialEq, Eq, Structural)]
pub struct Order {
    pub order_id: OrderId,
    pub order_type: OrderType,
    pub side: Side,
    pub price: Price,
    pub initial_quantity: Quantity,
    pub remaining_quantity: Quantity,
}

impl Order {
    /// A fresh order: nothing of it is filled yet.
    pub open spec fn is_fresh(self) -> bool {
        &&& self.initial_quantity > 0
        &&& self.remaining_quantity == self.initial_quantity
    }

    /// The same order after `q` more units of it traded.
    pub open spec fn filled_by(self, q: Quantity) -> Order {
        Order { remaining_quantity: (self.remaining_quantity - q) as Quantity, ..self }
    }

    pub fn new(
        order_id: OrderId,
        order_type: OrderType,
        side: Side,
        price: Price,
        quantity: Quantity,
    ) -> (r: Self)
        ensures
            r == (Order {
                order_id,
                order_type,
                side,
                price,
                initial_quantity: quantity,
                remaining_quantity: quantity,
            }),
    {
        Order {
            order_id,
            order_type,
            side,
            price,
            initial_quantity: quantity,
            remaining_quantity: quantity,
        }
    }

    pub fn get_order_id(&self) -> (r: OrderId)
        ensures
            r == self.order_id,
    {
        self.order_id
    }

    pub fn get_order_type(&self) -> (r: OrderType)
        ensures
            r == self.order_type,
    {
        self.order_type
    }

    pub fn get_side(&self) -> (r: Side)
        ensures
            r == self.side,
    {
        self.side
    }

    pub fn get_price(&self) -> (r: Price)
        ensures
            r == self.price,
    {
        self.price
    }

    pub fn get_initial_quantity(&self) -> (r: Quantity)
        ensures
            r == self.initial_quantity,
    {
        self.initial_quantity
    }

    pub fn get_remaining_quantity(&self) -> (r: Quantity)
        ensures
            r == self.remaining_quantity,
    {
        self.remaining_quantity
    }

    pub fn get_filled_quantity(&self) -> (r: Quantity)
        requires
            self.remaining_quantity <= self.initial_quantity,
        ensures
            r == self.initial_quantity - self.remaining_quantity,
    {
        self.initial_quantity - self.remaining_quantity
    }

    pub fn isfilled(&self) -> (r: bool)
        ensures
            r == (self.remaining_quantity == 0),
    {
        self.remaining_quantity == 0
    }

    /// Trades `quantity` more units of this order. Filling more than
    /// remains is a caller's error.
    pub fn fill(&mut self, quantity: Quantity)
        requires
            quantity <= old(self).remaining_quantity,
        ensures
            *final(self) == old(self).filled_by(quantity),
    {
        self.remaining_quantity = self.remaining_quantity - quantity;
    }
}

} // verus!

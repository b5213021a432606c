use vstd::prelude::*;
use crate::types::{OrderId, Price, Quantity};
use crate::order::Order;
use crate::ordertypes::OrderType;
use crate::side::Side;

verus! {

/// A request to replace the side, price and quantity of a live order.
#[derive(Clone, Copy, Debug, PartialEq, Eq, Structural)]
pub struct OrderModify {
    pub order_id: OrderId,
    pub price: Price,
    pub side: Side,
    pub quantity: Quantity,
}

impl OrderModify {
    /// The fresh order that replaces the live one, keeping its type.
    pub open spec fn as_order(self, order_type: OrderType) -> Order {
        Order {
            order_id: self.order_id,
            order_type,
            side: self.side,
            price: self.price,
            initial_quantity: self.quantity,
            remaining_quantity: self.quantity,
        }
    }

    pub fn new(order_id: OrderId, side: Side, price: Price, quantity: Quantity) -> (r: Self)
        ensures
            r == (OrderModify { order_id, price, side, quantity }),
    {
        OrderModify { order_id, side, price, quantity }
    }

    pub fn get_order_id(&self) -> (r: OrderId)
        ensures
            r == self.order_id,
    {
        self.order_id
    }

    pub fn get_price(&self) -> (r: Price)
        ensures
            r == self.price,
    {
        self.price
    }

    pub fn get_side(&self) -> (r: Side)
        ensures
            r == self.side,
    {
        self.side
    }

    pub fn get_quantity(&self) -> (r: Quantity)
        ensures
            r == self.quantity,
    {
        self.quantity
    }

    /// Builds the replacing order with the given type.
    pub fn to_order_pointer(&self, order_type: OrderType) -> (r: Order)
        ensures
            r == self.as_order(order_type),
    {
        Order::new(self.order_id, order_type, self.side, self.price, self.quantity)
    }
}

} // verus!

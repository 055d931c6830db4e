use crate::types::{OrderId, Price, Qty, Side, SubaccountId};
use vstd::prelude::*;

verus! {

/// A resting limit order, with the links of the FIFO queue of its price level.
#[derive(Debug, Clone, Copy)]
pub struct Order {
    pub order_id: OrderId,
    pub subaccount: SubaccountId,
    pub side: Side,
    pub price: Price,
    pub qty: Qty,
    pub remaining: i64,
    pub prev: Option<u32>,
    pub next: Option<u32>,
}

impl Order {
    pub fn new(
        order_id: OrderId,
        subaccount: SubaccountId,
        side: Side,
        price: Price,
        qty: Qty,
    ) -> (r: Self)
        ensures
            r == (Order {
                order_id,
                subaccount,
                side,
                price,
                qty,
                remaining: qty.value(),
                prev: None,
                next: None,
            }),
    {
        Self {
            order_id,
            subaccount,
            side,
            price,
            qty,
            remaining: qty.raw(),
            prev: None,
            next: None,
        }
    }
}

} // verus!

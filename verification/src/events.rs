use crate::types::{OrderId, Price, Qty, Side, SubaccountId};
use vstd::prelude::*;

verus! {

/// What the book reports in answer to an operation.
pub enum Event {
    Accepted {
        order_id: OrderId,
        subaccount: SubaccountId,
        side: Side,
        price: Price,
        qty: Qty,
    },
    Trade {
        maker_order_id: OrderId,
        taker_order_id: OrderId,
        maker_subaccount: SubaccountId,
        taker_subaccount: SubaccountId,
        price: Price,
        qty: Qty,
    },
    Cancelled { order_id: OrderId, subaccount: SubaccountId, remaining_qty: Qty },
    Rejected { order_id: OrderId, reason: RejectReason },
}

/// Why an operation was refused.
#[derive(Debug, Clone, Copy, PartialEq, Eq)]
pub enum RejectReason {
    DuplicateOrderId,
    PriceOutOfRange,
    SelfTradePrevention,
    OrderNotFound,
    NotOwner,
}

} // verus!

use orderbook::events::{Event, RejectReason};
use orderbook::ops::Op;
use orderbook::orderbook::OrderBook;
use orderbook::types::{OrderId, Price, Qty, SelfTradeMode, Side, SubaccountId};

fn place_op(id: u64, side: Side, price_val: i64, qty_val: i64) -> Op {
    place_op_stp(id, side, price_val, qty_val, 1, SelfTradeMode::ExpireTaker)
}

fn place_op_sub(
    id: u64,
    sub: u64,
    side: Side,
    price_val: i64,
    qty_val: i64,
    stp: SelfTradeMode,
) -> Op {
    place_op_stp(id, side, price_val, qty_val, sub, stp)
}

fn place_op_stp(
    id: u64,
    side: Side,
    price_val: i64,
    qty_val: i64,
    sub: u64,
    stp: SelfTradeMode,
) -> Op {
    Op::Place {
        order_id: OrderId(id),
        subaccount: SubaccountId(sub),
        side,
        price: Price::new(price_val).unwrap(),
        qty: Qty::new(qty_val).unwrap(),
        stp,
    }
}

fn cancel_op(id: u64) -> Op {
    Op::Cancel {
        order_id: OrderId(id),
        subaccount: SubaccountId(1),
    }
}

fn book() -> OrderBook {
    OrderBook::new(Price::new(100).unwrap(), 64)
}

fn count_trades(events: &[Event]) -> usize {
    events
        .iter()
        .filter(|e| matches!(e, Event::Trade { .. }))
        .count()
}

fn total_traded_qty(events: &[Event]) -> i64 {
    events
        .iter()
        .filter_map(|e| match e {
            Event::Trade { qty, .. } => Some(qty.raw()),
            _ => None,
        })
        .sum()
}

#[test]
fn place_emits_accepted() {
    let mut book = book();
    let mut events = Vec::new();
    book.apply(place_op(1, Side::Bid, 100, 10), &mut events);
    assert_eq!(events.len(), 1);
    assert!(matches!(events[0], Event::Accepted { .. }));
}

#[test]
fn duplicate_order_id_rejected() {
    let mut book = book();
    let mut events = Vec::new();
    book.apply(place_op(1, Side::Bid, 100, 10), &mut events);
    book.apply(place_op(1, Side::Bid, 101, 10), &mut events);
    assert!(matches!(
        events[1],
        Event::Rejected {
            reason: RejectReason::DuplicateOrderId,
            ..
        }
    ));
}

#[test]
fn cancel_removes_order() {
    let mut book = book();
    let mut events = Vec::new();
    book.apply(place_op(1, Side::Bid, 100, 10), &mut events);
    book.apply(cancel_op(1), &mut events);
    assert!(matches!(events[1], Event::Cancelled { .. }));
    assert_eq!(book.bids().best_price(), None);
}

#[test]
fn bid_and_ask_independent() {
    let mut book = book();
    let mut events = Vec::new();
    book.apply(place_op(1, Side::Bid, 99, 10), &mut events);
    book.apply(place_op(2, Side::Ask, 101, 10), &mut events);
    assert_eq!(book.bids().best_price(), Some(Price::new(99).unwrap()));
    assert_eq!(book.asks().best_price(), Some(Price::new(101).unwrap()));
}

#[test]
fn no_cross_no_trade() {
    let mut book = book();
    let mut events = Vec::new();
    book.apply(place_op(1, Side::Ask, 105, 10), &mut events);
    book.apply(place_op(2, Side::Bid, 100, 10), &mut events);

    assert_eq!(count_trades(&events), 0);
    assert_eq!(book.bids().best_price(), Some(Price::new(100).unwrap()));
    assert_eq!(book.asks().best_price(), Some(Price::new(105).unwrap()));
}

#[test]
fn full_fill_taker_buy() {
    let mut book = book();
    let mut events = Vec::new();

    book.apply(
        place_op_sub(1, 1, Side::Ask, 105, 10, SelfTradeMode::ExpireTaker),
        &mut events,
    );
    events.clear();

    book.apply(
        place_op_sub(2, 2, Side::Bid, 105, 10, SelfTradeMode::ExpireTaker),
        &mut events,
    );

    assert!(matches!(events[0], Event::Accepted { .. }));
    assert_eq!(count_trades(&events), 1);
    assert_eq!(total_traded_qty(&events), 10);
    assert_eq!(book.asks().best_price(), None);
    assert_eq!(book.bids().best_price(), None);
}

#[test]
fn partial_fill_taker_remainder_in_book() {
    let mut book = book();
    let mut events = Vec::new();

    book.apply(
        place_op_sub(1, 1, Side::Ask, 105, 7, SelfTradeMode::ExpireTaker),
        &mut events,
    );
    events.clear();

    book.apply(
        place_op_sub(2, 2, Side::Bid, 105, 10, SelfTradeMode::ExpireTaker),
        &mut events,
    );

    assert_eq!(total_traded_qty(&events), 7);
    assert_eq!(book.bids().best_price(), Some(Price::new(105).unwrap()));
    assert_eq!(book.asks().best_price(), None);
}

#[test]
fn partial_fill_maker_remains_with_decreased_qty() {
    let mut book = book();
    let mut events = Vec::new();

    book.apply(
        place_op_sub(1, 1, Side::Ask, 105, 10, SelfTradeMode::ExpireTaker),
        &mut events,
    );
    events.clear();

    book.apply(
        place_op_sub(2, 2, Side::Bid, 105, 3, SelfTradeMode::ExpireTaker),
        &mut events,
    );

    assert_eq!(total_traded_qty(&events), 3);
    assert_eq!(book.asks().best_price(), Some(Price::new(105).unwrap()));
    let level = book.asks().best_level().unwrap();
    assert_eq!(level.total_qty(), 7);
    assert_eq!(level.len(), 1);
}

#[test]
fn walk_multiple_levels() {
    let mut book = book();
    let mut events = Vec::new();

    book.apply(
        place_op_sub(1, 1, Side::Ask, 101, 5, SelfTradeMode::ExpireTaker),
        &mut events,
    );
    book.apply(
        place_op_sub(2, 1, Side::Ask, 102, 5, SelfTradeMode::ExpireTaker),
        &mut events,
    );
    book.apply(
        place_op_sub(3, 1, Side::Ask, 103, 5, SelfTradeMode::ExpireTaker),
        &mut events,
    );
    events.clear();

    book.apply(
        place_op_sub(99, 2, Side::Bid, 103, 12, SelfTradeMode::ExpireTaker),
        &mut events,
    );

    assert_eq!(count_trades(&events), 3);
    assert_eq!(total_traded_qty(&events), 12);
    assert_eq!(book.asks().best_price(), Some(Price::new(103).unwrap()));
    assert_eq!(book.asks().best_level().unwrap().total_qty(), 3);
}

#[test]
fn fifo_at_same_level() {
    let mut book = book();
    let mut events = Vec::new();

    book.apply(
        place_op_sub(1, 1, Side::Ask, 105, 5, SelfTradeMode::ExpireTaker),
        &mut events,
    );
    book.apply(
        place_op_sub(2, 1, Side::Ask, 105, 5, SelfTradeMode::ExpireTaker),
        &mut events,
    );
    events.clear();

    book.apply(
        place_op_sub(99, 2, Side::Bid, 105, 7, SelfTradeMode::ExpireTaker),
        &mut events,
    );

    let trades: Vec<_> = events
        .iter()
        .filter_map(|e| match e {
            Event::Trade {
                maker_order_id,
                qty,
                ..
            } => Some((*maker_order_id, qty.raw())),
            _ => None,
        })
        .collect();

    assert_eq!(trades, vec![(OrderId(1), 5), (OrderId(2), 2)]);
}

#[test]
fn trade_price_is_maker_price() {
    let mut book = book();
    let mut events = Vec::new();

    book.apply(
        place_op_sub(1, 1, Side::Ask, 102, 10, SelfTradeMode::ExpireTaker),
        &mut events,
    );
    events.clear();

    book.apply(
        place_op_sub(2, 2, Side::Bid, 105, 10, SelfTradeMode::ExpireTaker),
        &mut events,
    );

    let trade_price = events.iter().find_map(|e| match e {
        Event::Trade { price, .. } => Some(*price),
        _ => None,
    });
    assert_eq!(trade_price, Some(Price::new(102).unwrap()));
}

#[test]
fn match_sell_works_symmetrically() {
    let mut book = book();
    let mut events = Vec::new();

    book.apply(
        place_op_sub(1, 1, Side::Bid, 100, 10, SelfTradeMode::ExpireTaker),
        &mut events,
    );
    events.clear();

    book.apply(
        place_op_sub(2, 2, Side::Ask, 100, 10, SelfTradeMode::ExpireTaker),
        &mut events,
    );

    assert_eq!(count_trades(&events), 1);
    assert_eq!(total_traded_qty(&events), 10);
    assert_eq!(book.bids().best_price(), None);
}

#[test]
fn stp_expire_taker_cancels_taker() {
    let mut book = book();
    let mut events = Vec::new();

    book.apply(
        place_op_sub(1, 42, Side::Ask, 100, 10, SelfTradeMode::ExpireTaker),
        &mut events,
    );
    events.clear();

    book.apply(
        place_op_sub(2, 42, Side::Bid, 100, 10, SelfTradeMode::ExpireTaker),
        &mut events,
    );

    assert_eq!(count_trades(&events), 0);
    assert_eq!(book.asks().best_price(), Some(Price::new(100).unwrap()));
    assert!(events.iter().any(|e| matches!(
        e,
        Event::Cancelled {
            order_id: OrderId(2),
            ..
        }
    )));
}

#[test]
fn stp_expire_maker_cancels_maker_continues() {
    let mut book = book();
    let mut events = Vec::new();

    book.apply(
        place_op_sub(1, 42, Side::Ask, 100, 10, SelfTradeMode::ExpireTaker),
        &mut events,
    );
    book.apply(
        place_op_sub(2, 99, Side::Ask, 101, 10, SelfTradeMode::ExpireTaker),
        &mut events,
    );
    events.clear();

    book.apply(
        place_op_sub(3, 42, Side::Bid, 101, 5, SelfTradeMode::ExpireMaker),
        &mut events,
    );

    assert!(events.iter().any(|e| matches!(
        e,
        Event::Cancelled {
            order_id: OrderId(1),
            ..
        }
    )));
    assert_eq!(total_traded_qty(&events), 5);
    assert_eq!(book.asks().best_price(), Some(Price::new(101).unwrap()));
    assert_eq!(book.asks().best_level().unwrap().total_qty(), 5);
}

#[test]
fn stp_expire_both_cancels_both() {
    let mut book = book();
    let mut events = Vec::new();

    book.apply(
        place_op_sub(1, 42, Side::Ask, 100, 10, SelfTradeMode::ExpireTaker),
        &mut events,
    );
    events.clear();

    book.apply(
        place_op_sub(2, 42, Side::Bid, 100, 10, SelfTradeMode::ExpireBoth),
        &mut events,
    );

    assert_eq!(count_trades(&events), 0);
    let cancelled: Vec<_> = events
        .iter()
        .filter_map(|e| match e {
            Event::Cancelled { order_id, .. } => Some(*order_id),
            _ => None,
        })
        .collect();
    assert!(cancelled.contains(&OrderId(1)));
    assert!(cancelled.contains(&OrderId(2)));
    assert_eq!(book.asks().best_price(), None);
    assert_eq!(book.bids().best_price(), None);
}

#[test]
fn cross_subaccount_no_stp_normal_trade() {
    let mut book = book();
    let mut events = Vec::new();

    book.apply(
        place_op_sub(1, 1, Side::Ask, 100, 10, SelfTradeMode::ExpireTaker),
        &mut events,
    );
    events.clear();

    book.apply(
        place_op_sub(2, 2, Side::Bid, 100, 10, SelfTradeMode::ExpireTaker),
        &mut events,
    );

    assert_eq!(count_trades(&events), 1);
    assert_eq!(total_traded_qty(&events), 10);
}

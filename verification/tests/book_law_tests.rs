use orderbook::events::{Event, RejectReason};
use orderbook::generator::OpKind;
use orderbook::ops::Op;
use orderbook::orderbook::OrderBook;
use orderbook::rng::Rng;
use orderbook::sim::{op_kind_tag, side_tag, SimStats};
use orderbook::types::{OrderId, Price, Qty, SelfTradeMode, Side, SubaccountId};

fn place(id: u64, sub: u64, side: Side, price: i64, qty: i64, stp: SelfTradeMode) -> Op {
    Op::Place {
        order_id: OrderId(id),
        subaccount: SubaccountId(sub),
        side,
        price: Price::new(price).unwrap(),
        qty: Qty::new(qty).unwrap(),
        stp,
    }
}

fn cancel(id: u64, sub: u64) -> Op {
    Op::Cancel { order_id: OrderId(id), subaccount: SubaccountId(sub) }
}

fn traded(events: &[Event]) -> i64 {
    events
        .iter()
        .map(|e| match e {
            Event::Trade { qty, .. } => qty.raw(),
            _ => 0,
        })
        .sum()
}

fn snapshot(book: &OrderBook) -> (Option<Price>, Option<Price>, i64, i64) {
    (book.best_bid(), book.best_ask(), book.best_bid_qty(), book.best_ask_qty())
}

#[test]
fn cancel_of_unknown_order_is_not_found() {
    let mut book = OrderBook::new(Price::new(100).unwrap(), 8);
    let mut events = Vec::new();
    book.apply(cancel(5, 1), &mut events);
    assert_eq!(events.len(), 1);
    assert!(matches!(
        events[0],
        Event::Rejected { order_id: OrderId(5), reason: RejectReason::OrderNotFound }
    ));
}

#[test]
fn cancel_by_other_subaccount_is_not_owner_and_changes_nothing() {
    let mut book = OrderBook::new(Price::new(100).unwrap(), 8);
    let mut events = Vec::new();
    book.apply(place(1, 7, Side::Bid, 99, 10, SelfTradeMode::ExpireTaker), &mut events);
    let before = snapshot(&book);
    events.clear();
    book.apply(cancel(1, 8), &mut events);
    assert_eq!(events.len(), 1);
    assert!(matches!(
        events[0],
        Event::Rejected { order_id: OrderId(1), reason: RejectReason::NotOwner }
    ));
    assert_eq!(snapshot(&book), before);
}

#[test]
fn price_off_the_ladder_is_refused_after_acceptance() {
    let mut book = OrderBook::new(Price::new(100).unwrap(), 8);
    let mut events = Vec::new();
    book.apply(place(1, 1, Side::Bid, 10_000, 10, SelfTradeMode::ExpireTaker), &mut events);
    assert_eq!(events.len(), 2);
    assert!(matches!(events[0], Event::Accepted { .. }));
    assert!(matches!(
        events[1],
        Event::Rejected { order_id: OrderId(1), reason: RejectReason::PriceOutOfRange }
    ));
    assert_eq!(book.best_bid(), None);
    // the slot used on the way is free again: the id can be placed anew
    events.clear();
    book.apply(place(1, 1, Side::Bid, 100, 10, SelfTradeMode::ExpireTaker), &mut events);
    assert_eq!(events.len(), 1);
    assert_eq!(book.best_bid(), Some(Price::new(100).unwrap()));
}

#[test]
fn off_ladder_taker_still_trades_before_refusal() {
    let mut book = OrderBook::new(Price::new(100).unwrap(), 8);
    let mut events = Vec::new();
    book.apply(place(1, 1, Side::Ask, 100, 10, SelfTradeMode::ExpireTaker), &mut events);
    events.clear();
    book.apply(place(2, 2, Side::Bid, 10_000, 15, SelfTradeMode::ExpireTaker), &mut events);
    assert_eq!(traded(&events), 10);
    assert!(matches!(
        events.last().unwrap(),
        Event::Rejected { order_id: OrderId(2), reason: RejectReason::PriceOutOfRange }
    ));
    assert_eq!(book.best_ask(), None);
    assert_eq!(book.best_bid(), None);
}

#[test]
fn full_pool_cancels_the_remainder() {
    let mut book = OrderBook::new(Price::new(100).unwrap(), 1);
    let mut events = Vec::new();
    book.apply(place(1, 1, Side::Bid, 99, 10, SelfTradeMode::ExpireTaker), &mut events);
    events.clear();
    book.apply(place(2, 1, Side::Bid, 98, 4, SelfTradeMode::ExpireTaker), &mut events);
    assert_eq!(events.len(), 2);
    match events[1] {
        Event::Cancelled { order_id, subaccount, remaining_qty } => {
            assert_eq!(order_id, OrderId(2));
            assert_eq!(subaccount, SubaccountId(1));
            assert_eq!(remaining_qty.raw(), 4);
        }
        _ => panic!("expected a cancellation"),
    }
    assert_eq!(book.best_bid(), Some(Price::new(99).unwrap()));
    assert_eq!(book.best_bid_qty(), 10);
}

#[test]
fn zero_capacity_book_cancels_every_remainder() {
    let mut book = OrderBook::new(Price::new(100).unwrap(), 0);
    let mut events = Vec::new();
    book.apply(place(1, 1, Side::Ask, 100, 3, SelfTradeMode::ExpireTaker), &mut events);
    assert!(matches!(events[1], Event::Cancelled { .. }));
    assert_eq!(book.best_ask(), None);
}

#[test]
fn book_stays_uncrossed_under_a_long_flow() {
    let mut book = OrderBook::new(Price::new(1000).unwrap(), 256);
    let mut rng = Rng::new(11);
    let mut events = Vec::new();
    for id in 1..4000u64 {
        let side = if rng.below(2) == 0 { Side::Bid } else { Side::Ask };
        let price = rng.range(980, 1020);
        let qty = rng.range(1, 30);
        let sub = 1 + rng.below(3) as u64;
        let op = if rng.below(5) == 0 {
            cancel(rng.range(1, id as i64) as u64, sub)
        } else {
            place(id, sub, side, price, qty, SelfTradeMode::ExpireMaker)
        };
        events.clear();
        book.apply(op, &mut events);
        if let (Some(b), Some(a)) = (book.best_bid(), book.best_ask()) {
            assert!(b.raw() < a.raw(), "crossed book: {} >= {}", b.raw(), a.raw());
        }
        for e in &events {
            if let Event::Trade { maker_subaccount, taker_subaccount, .. } = e {
                assert_ne!(maker_subaccount, taker_subaccount);
            }
        }
    }
}

#[test]
fn placed_quantity_is_conserved() {
    let mut book = OrderBook::new(Price::new(100).unwrap(), 16);
    let mut events = Vec::new();
    book.apply(place(1, 1, Side::Ask, 101, 4, SelfTradeMode::ExpireTaker), &mut events);
    book.apply(place(2, 1, Side::Ask, 102, 5, SelfTradeMode::ExpireTaker), &mut events);
    events.clear();
    book.apply(place(3, 2, Side::Bid, 102, 20, SelfTradeMode::ExpireTaker), &mut events);
    let t = traded(&events);
    assert_eq!(t, 9);
    // the untraded 11 rest at the taker's price
    assert_eq!(book.best_bid(), Some(Price::new(102).unwrap()));
    assert_eq!(book.best_bid_qty(), 20 - t);
    assert_eq!(book.best_ask(), None);
}

#[test]
fn trades_respect_the_limit() {
    let mut book = OrderBook::new(Price::new(100).unwrap(), 16);
    let mut events = Vec::new();
    book.apply(place(1, 1, Side::Bid, 103, 5, SelfTradeMode::ExpireTaker), &mut events);
    book.apply(place(2, 1, Side::Bid, 101, 5, SelfTradeMode::ExpireTaker), &mut events);
    book.apply(place(3, 1, Side::Bid, 99, 5, SelfTradeMode::ExpireTaker), &mut events);
    events.clear();
    book.apply(place(4, 2, Side::Ask, 100, 50, SelfTradeMode::ExpireTaker), &mut events);
    let prices: Vec<i64> = events
        .iter()
        .filter_map(|e| match e {
            Event::Trade { price, .. } => Some(price.raw()),
            _ => None,
        })
        .collect();
    // best price first, and never below the seller's limit
    assert_eq!(prices, vec![103, 101]);
    assert_eq!(book.best_ask(), Some(Price::new(100).unwrap()));
    assert_eq!(book.best_bid(), Some(Price::new(99).unwrap()));
}

#[test]
fn cancel_undoes_a_resting_place() {
    let mut book = OrderBook::new(Price::new(100).unwrap(), 16);
    let mut events = Vec::new();
    book.apply(place(1, 1, Side::Bid, 98, 5, SelfTradeMode::ExpireTaker), &mut events);
    book.apply(place(2, 2, Side::Ask, 103, 6, SelfTradeMode::ExpireTaker), &mut events);
    let before = snapshot(&book);
    events.clear();
    book.apply(place(3, 3, Side::Bid, 101, 7, SelfTradeMode::ExpireTaker), &mut events);
    assert_eq!(events.len(), 1);
    assert_ne!(snapshot(&book), before);
    events.clear();
    book.apply(cancel(3, 3), &mut events);
    assert_eq!(events.len(), 1);
    match events[0] {
        Event::Cancelled { order_id, remaining_qty, .. } => {
            assert_eq!(order_id, OrderId(3));
            assert_eq!(remaining_qty.raw(), 7);
        }
        _ => panic!("expected a cancellation"),
    }
    assert_eq!(snapshot(&book), before);
}

#[test]
fn duplicate_leaves_book_unchanged() {
    let mut book = OrderBook::new(Price::new(100).unwrap(), 16);
    let mut events = Vec::new();
    book.apply(place(1, 1, Side::Ask, 101, 5, SelfTradeMode::ExpireTaker), &mut events);
    let before = snapshot(&book);
    events.clear();
    // same id, crossing price: refused without trading
    book.apply(place(1, 2, Side::Bid, 105, 5, SelfTradeMode::ExpireTaker), &mut events);
    assert_eq!(events.len(), 1);
    assert_eq!(snapshot(&book), before);
}

#[test]
fn expire_maker_sweeps_own_orders_then_trades() {
    let mut book = OrderBook::new(Price::new(100).unwrap(), 16);
    let mut events = Vec::new();
    book.apply(place(1, 5, Side::Ask, 100, 3, SelfTradeMode::ExpireTaker), &mut events);
    book.apply(place(2, 5, Side::Ask, 100, 3, SelfTradeMode::ExpireTaker), &mut events);
    book.apply(place(3, 6, Side::Ask, 100, 3, SelfTradeMode::ExpireTaker), &mut events);
    events.clear();
    book.apply(place(4, 5, Side::Bid, 100, 2, SelfTradeMode::ExpireMaker), &mut events);
    let kinds: Vec<&str> = events
        .iter()
        .map(|e| match e {
            Event::Accepted { .. } => "accepted",
            Event::Trade { .. } => "trade",
            Event::Cancelled { .. } => "cancelled",
            Event::Rejected { .. } => "rejected",
        })
        .collect();
    assert_eq!(kinds, vec!["accepted", "cancelled", "cancelled", "trade"]);
    assert_eq!(book.best_ask_qty(), 1);
}

#[test]
fn best_quantities_follow_the_top_level() {
    let mut book = OrderBook::new(Price::new(100).unwrap(), 16);
    let mut events = Vec::new();
    assert_eq!(book.best_bid_qty(), 0);
    assert_eq!(book.best_ask_qty(), 0);
    book.apply(place(1, 1, Side::Bid, 99, 4, SelfTradeMode::ExpireTaker), &mut events);
    book.apply(place(2, 1, Side::Bid, 99, 6, SelfTradeMode::ExpireTaker), &mut events);
    book.apply(place(3, 1, Side::Bid, 97, 50, SelfTradeMode::ExpireTaker), &mut events);
    book.apply(place(4, 1, Side::Ask, 104, 8, SelfTradeMode::ExpireTaker), &mut events);
    assert_eq!(book.best_bid_qty(), 10);
    assert_eq!(book.best_ask_qty(), 8);
}

#[test]
fn stats_count_events() {
    let mut book = OrderBook::new(Price::new(100).unwrap(), 16);
    let mut events = Vec::new();
    book.apply(place(1, 1, Side::Ask, 100, 5, SelfTradeMode::ExpireTaker), &mut events);
    book.apply(place(2, 2, Side::Bid, 100, 8, SelfTradeMode::ExpireTaker), &mut events);
    book.apply(cancel(9, 1), &mut events);
    book.apply(place(3, 2, Side::Bid, 10_000, 1, SelfTradeMode::ExpireTaker), &mut events);
    let mut stats = SimStats::default();
    let (step_trades, step_qty) = stats.record(&events);
    assert_eq!(step_trades, 1);
    assert_eq!(step_qty, 5);
    assert_eq!(stats.trades, 1);
    assert_eq!(stats.traded_qty, 5);
    assert_eq!(stats.accepted, 3);
    assert_eq!(stats.cancelled, 0);
    assert_eq!(stats.rejected, 2);
    assert_eq!(stats.rejected_not_found, 1);
    assert_eq!(stats.rejected_out_of_range, 1);
    assert_eq!(stats.steps, 0);
}

#[test]
fn csv_tags() {
    assert_eq!(side_tag(Side::Bid), "bid");
    assert_eq!(side_tag(Side::Ask), "ask");
    assert_eq!(op_kind_tag(OpKind::PassivePlace), "passive");
    assert_eq!(op_kind_tag(OpKind::AggressivePlace), "aggressive");
    assert_eq!(op_kind_tag(OpKind::Cancel), "cancel");
}

#[test]
fn cancel_twice_is_not_found() {
    let mut book = OrderBook::new(Price::new(100).unwrap(), 8);
    let mut events = Vec::new();
    book.apply(place(1, 1, Side::Ask, 101, 5, SelfTradeMode::ExpireTaker), &mut events);
    book.apply(cancel(1, 1), &mut events);
    book.apply(cancel(1, 1), &mut events);
    assert!(matches!(events[1], Event::Cancelled { order_id: OrderId(1), .. }));
    assert!(matches!(
        events[2],
        Event::Rejected { order_id: OrderId(1), reason: RejectReason::OrderNotFound }
    ));
    assert_eq!(book.best_ask(), None);
}

#[test]
fn sweep_meets_makers_best_price_first_then_oldest_first() {
    let mut book = OrderBook::new(Price::new(100).unwrap(), 16);
    let mut events = Vec::new();
    book.apply(place(1, 1, Side::Ask, 102, 5, SelfTradeMode::ExpireTaker), &mut events);
    book.apply(place(2, 2, Side::Ask, 101, 5, SelfTradeMode::ExpireTaker), &mut events);
    book.apply(place(3, 3, Side::Ask, 102, 5, SelfTradeMode::ExpireTaker), &mut events);
    book.apply(place(4, 4, Side::Ask, 101, 5, SelfTradeMode::ExpireTaker), &mut events);
    events.clear();
    book.apply(place(9, 9, Side::Bid, 102, 17, SelfTradeMode::ExpireTaker), &mut events);
    let met: Vec<(u64, i64, i64)> = events
        .iter()
        .filter_map(|e| match e {
            Event::Trade { maker_order_id, price, qty, .. } => {
                Some((maker_order_id.0, price.raw(), qty.raw()))
            }
            _ => None,
        })
        .collect();
    assert_eq!(met, vec![(2, 101, 5), (4, 101, 5), (1, 102, 5), (3, 102, 2)]);
    assert_eq!(book.best_ask(), Some(Price::new(102).unwrap()));
    assert_eq!(book.best_ask_qty(), 3);
}

use orderbook::ladder::{index_to_price, price_to_index, PriceLadder, LADDER_SIZE};
use orderbook::level::PriceLevel;
use orderbook::order::Order;
use orderbook::pool::{OrderHandle, OrderPool};
use orderbook::types::{OrderId, Price, Qty, Side, SubaccountId};

fn setup() -> (PriceLadder, OrderPool) {
    let reference = Price::new(100).unwrap();
    let ladder = PriceLadder::new(reference, Side::Bid);
    let pool = OrderPool::new(64);
    (ladder, pool)
}

fn place(pool: &mut OrderPool, id: u64, price_val: i64) -> (OrderHandle, Price) {
    let price = Price::new(price_val).unwrap();
    let order = Order::new(
        OrderId(id),
        SubaccountId(1),
        Side::Bid,
        price,
        Qty::new(10).unwrap(),
    );
    let handle = pool.insert(order).unwrap();
    (handle, price)
}

#[test]
fn empty_ladder_has_no_best() {
    let (ladder, _) = setup();
    assert_eq!(ladder.best_price(), None);
}

#[test]
fn add_single_order_sets_best() {
    let (mut ladder, mut pool) = setup();
    let (h, p) = place(&mut pool, 1, 100);
    ladder.add_order(h, p, 10, &mut pool).unwrap();
    assert_eq!(ladder.best_price(), Some(p));
}

#[test]
fn bid_best_is_highest_price() {
    let (mut ladder, mut pool) = setup();
    let (h1, p1) = place(&mut pool, 1, 99);
    let (h2, p2) = place(&mut pool, 2, 101);
    let (h3, p3) = place(&mut pool, 3, 100);

    ladder.add_order(h1, p1, 10, &mut pool).unwrap();
    ladder.add_order(h2, p2, 10, &mut pool).unwrap();
    ladder.add_order(h3, p3, 10, &mut pool).unwrap();

    assert_eq!(ladder.best_price(), Some(p2));
}

#[test]
fn ask_best_is_lowest_price() {
    let reference = Price::new(100).unwrap();
    let mut ladder = PriceLadder::new(reference, Side::Ask);
    let mut pool = OrderPool::new(64);

    let (h1, p1) = place(&mut pool, 1, 99);
    let (h2, p2) = place(&mut pool, 2, 101);
    let (h3, p3) = place(&mut pool, 3, 100);

    ladder.add_order(h1, p1, 10, &mut pool).unwrap();
    ladder.add_order(h2, p2, 10, &mut pool).unwrap();
    ladder.add_order(h3, p3, 10, &mut pool).unwrap();

    assert_eq!(ladder.best_price(), Some(p1));
}

#[test]
fn out_of_range_price_rejected() {
    let (mut ladder, mut pool) = setup();
    let p = Price::new(10000).unwrap();
    let order = Order::new(
        OrderId(1),
        SubaccountId(1),
        Side::Bid,
        p,
        Qty::new(10).unwrap(),
    );
    let h = pool.insert(order).unwrap();

    assert!(ladder.add_order(h, p, 10, &mut pool).is_err());
    assert_eq!(ladder.best_price(), None);
}

#[test]
fn remove_non_best_does_not_change_best() {
    let (mut ladder, mut pool) = setup();
    let (h1, p1) = place(&mut pool, 1, 99);
    let (h2, p2) = place(&mut pool, 2, 101);

    ladder.add_order(h1, p1, 10, &mut pool).unwrap();
    ladder.add_order(h2, p2, 10, &mut pool).unwrap();

    ladder.remove_order(h1, p1, 10, &mut pool);
    assert_eq!(ladder.best_price(), Some(p2));
}

#[test]
fn remove_best_when_level_not_empty() {
    let (mut ladder, mut pool) = setup();
    let (h1, p) = place(&mut pool, 1, 100);
    let (h2, p2) = place(&mut pool, 2, 100);

    ladder.add_order(h1, p, 10, &mut pool).unwrap();
    ladder.add_order(h2, p2, 10, &mut pool).unwrap();

    ladder.remove_order(h1, p, 10, &mut pool);
    assert_eq!(ladder.best_price(), Some(p));
}

#[test]
fn remove_best_empties_level_finds_next() {
    let (mut ladder, mut pool) = setup();
    let (h1, p1) = place(&mut pool, 1, 99);
    let (h2, p2) = place(&mut pool, 2, 101);

    ladder.add_order(h1, p1, 10, &mut pool).unwrap();
    ladder.add_order(h2, p2, 10, &mut pool).unwrap();

    ladder.remove_order(h2, p2, 10, &mut pool);
    assert_eq!(ladder.best_price(), Some(p1));
}

#[test]
fn remove_last_order_clears_best() {
    let (mut ladder, mut pool) = setup();
    let (h, p) = place(&mut pool, 1, 100);

    ladder.add_order(h, p, 10, &mut pool).unwrap();
    ladder.remove_order(h, p, 10, &mut pool);

    assert_eq!(ladder.best_price(), None);
}

#[test]
fn ask_finds_next_best_upward() {
    let reference = Price::new(100).unwrap();
    let mut ladder = PriceLadder::new(reference, Side::Ask);
    let mut pool = OrderPool::new(64);

    let (h1, p1) = place(&mut pool, 1, 100);
    let (h2, p2) = place(&mut pool, 2, 102);

    ladder.add_order(h1, p1, 10, &mut pool).unwrap();
    ladder.add_order(h2, p2, 10, &mut pool).unwrap();

    ladder.remove_order(h1, p1, 10, &mut pool);
    assert_eq!(ladder.best_price(), Some(p2));
}

// ---- further cases ----

#[test]
fn price_index_round_trip() {
    let reference = Price::new(100).unwrap();
    assert_eq!(price_to_index(Price::new(100).unwrap(), reference), Some(LADDER_SIZE / 2));
    assert_eq!(price_to_index(Price::new(99).unwrap(), reference), Some(511));
    assert_eq!(index_to_price(513, reference), Price::new(101).unwrap());
    assert_eq!(index_to_price(price_to_index(Price::new(357).unwrap(), reference).unwrap(), reference), Price::new(357).unwrap());
}

#[test]
fn ladder_edges() {
    let reference = Price::new(1000).unwrap();
    // level 0 is reference - 512, level 1023 is reference + 511
    assert_eq!(price_to_index(Price::new(488).unwrap(), reference), Some(0));
    assert_eq!(price_to_index(Price::new(487).unwrap(), reference), None);
    assert_eq!(price_to_index(Price::new(1511).unwrap(), reference), Some(1023));
    assert_eq!(price_to_index(Price::new(1512).unwrap(), reference), None);
}

#[test]
fn level_is_fifo_and_counts() {
    let (mut ladder, mut pool) = setup();
    let (h1, p) = place(&mut pool, 1, 100);
    let (h2, _) = place(&mut pool, 2, 100);
    let (h3, _) = place(&mut pool, 3, 100);
    ladder.add_order(h1, p, 10, &mut pool).unwrap();
    ladder.add_order(h2, p, 10, &mut pool).unwrap();
    ladder.add_order(h3, p, 10, &mut pool).unwrap();
    ladder.remove_order(h2, p, 10, &mut pool);
    let level = ladder.best_level().unwrap();
    assert_eq!(level.len(), 2);
    assert_eq!(level.total_qty(), 20);
    assert!(!level.is_empty());
    // the oldest order (slot 0 of a fresh pool) is still at the front
    assert_eq!(level.front(), Some(0));
}

#[test]
fn decrease_level_qty_changes_total_only() {
    let (mut ladder, mut pool) = setup();
    let (h, p) = place(&mut pool, 1, 100);
    ladder.add_order(h, p, 10, &mut pool).unwrap();
    ladder.decrease_level_qty(p, 4);
    let level = ladder.best_level().unwrap();
    assert_eq!(level.total_qty(), 6);
    assert_eq!(level.len(), 1);
}

#[test]
fn remove_out_of_range_price_is_a_no_op() {
    let (mut ladder, mut pool) = setup();
    let (h, p) = place(&mut pool, 1, 100);
    ladder.add_order(h, p, 10, &mut pool).unwrap();
    ladder.remove_order(h, Price::new(5000).unwrap(), 10, &mut pool);
    assert_eq!(ladder.best_price(), Some(p));
}

#[test]
fn new_level_is_empty() {
    let level = PriceLevel::new();
    assert!(level.is_empty());
    assert_eq!(level.len(), 0);
    assert_eq!(level.total_qty(), 0);
    assert_eq!(level.front(), None);
}

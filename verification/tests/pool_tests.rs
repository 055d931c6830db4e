use orderbook::order::Order;
use orderbook::pool::OrderPool;
use orderbook::types::{OrderId, Price, Qty, Side, SubaccountId};

fn make_order(id: u64) -> Order {
    Order::new(
        OrderId(id),
        SubaccountId(1),
        Side::Bid,
        Price::new(100).unwrap(),
        Qty::new(10).unwrap(),
    )
}

#[test]
fn insert_returns_handle() {
    let mut pool = OrderPool::new(4);
    let handle = pool.insert(make_order(1));
    assert!(handle.is_some());
}

#[test]
fn get_returns_inserted_order() {
    let mut pool = OrderPool::new(4);
    let handle = pool.insert(make_order(42)).unwrap();

    let order = pool.get(handle).unwrap();
    assert_eq!(order.order_id, OrderId(42));
}

#[test]
fn remove_returns_order_and_invalidates_handle() {
    let mut pool = OrderPool::new(4);
    let handle = pool.insert(make_order(1)).unwrap();

    let removed = pool.remove(handle);
    assert!(removed.is_some());
    assert_eq!(removed.unwrap().order_id, OrderId(1));

    assert!(pool.get(handle).is_none());
}

#[test]
fn pool_full_returns_none() {
    let mut pool = OrderPool::new(2);
    assert!(pool.insert(make_order(1)).is_some());
    assert!(pool.insert(make_order(2)).is_some());
    assert!(pool.insert(make_order(3)).is_none());
}

#[test]
fn slot_is_reused_after_remove() {
    let mut pool = OrderPool::new(2);
    let h1 = pool.insert(make_order(1)).unwrap();
    let _h2 = pool.insert(make_order(2)).unwrap();

    assert!(pool.insert(make_order(3)).is_none());

    pool.remove(h1).unwrap();
    let h3 = pool.insert(make_order(3));
    assert!(h3.is_some());
}

#[test]
fn generation_protects_from_use_after_free() {
    let mut pool = OrderPool::new(2);
    let old_handle = pool.insert(make_order(1)).unwrap();

    pool.remove(old_handle).unwrap();
    let _new_handle = pool.insert(make_order(2)).unwrap();

    assert!(pool.get(old_handle).is_none());
}

#[test]
fn get_mut_allows_mutation() {
    let mut pool = OrderPool::new(2);
    let handle = pool.insert(make_order(1)).unwrap();

    let order = pool.get_mut(handle).unwrap();
    order.remaining = 5;

    assert_eq!(pool.get(handle).unwrap().remaining, 5);
}

#[test]
fn remove_twice_returns_none() {
    let mut pool = OrderPool::new(2);
    let handle = pool.insert(make_order(1)).unwrap();

    pool.remove(handle).unwrap();
    assert!(pool.remove(handle).is_none());
}

// ---- further cases ----

#[test]
fn zero_capacity_pool_is_always_full() {
    let mut pool = OrderPool::new(0);
    assert!(pool.insert(make_order(1)).is_none());
}

#[test]
fn reused_slot_gets_the_last_freed_slot_first() {
    // the free list is LIFO: the slot freed last is handed out next
    let mut pool = OrderPool::new(3);
    let h1 = pool.insert(make_order(1)).unwrap();
    let h2 = pool.insert(make_order(2)).unwrap();
    pool.remove(h1).unwrap();
    pool.remove(h2).unwrap();
    let h3 = pool.insert(make_order(3)).unwrap();
    // h2's slot was freed last, so the new order sits there; h2 stays dead
    assert!(pool.get(h2).is_none());
    assert!(pool.get(h1).is_none());
    assert_eq!(pool.get(h3).unwrap().order_id, OrderId(3));
}

#[test]
fn stale_handle_cannot_remove_the_new_order() {
    let mut pool = OrderPool::new(1);
    let old = pool.insert(make_order(1)).unwrap();
    pool.remove(old).unwrap();
    let new = pool.insert(make_order(2)).unwrap();
    assert!(pool.remove(old).is_none());
    assert_eq!(pool.get(new).unwrap().order_id, OrderId(2));
}

#[test]
fn get_mut_on_stale_handle_is_none() {
    let mut pool = OrderPool::new(1);
    let h = pool.insert(make_order(1)).unwrap();
    pool.remove(h).unwrap();
    assert!(pool.get_mut(h).is_none());
}

#[test]
fn inserted_order_keeps_its_fields() {
    let mut pool = OrderPool::new(1);
    let h = pool.insert(make_order(7)).unwrap();
    let o = pool.get(h).unwrap();
    assert_eq!(o.remaining, 10);
    assert_eq!(o.price, Price::new(100).unwrap());
    assert_eq!(o.prev, None);
    assert_eq!(o.next, None);
}

#[test]
fn fresh_pool_takes_exactly_its_capacity() {
    let mut pool = OrderPool::new(3);
    let mut handles = Vec::new();
    for id in 1..=3 {
        handles.push(pool.insert(make_order(id)).unwrap());
    }
    assert!(pool.insert(make_order(4)).is_none());
    for (k, h) in handles.iter().enumerate() {
        assert_eq!(pool.get(*h).unwrap().order_id, OrderId(k as u64 + 1));
        for h2 in &handles[k + 1..] {
            assert_ne!(h, h2);
        }
    }
}

#[test]
fn insert_keeps_live_handles_and_leaves_stale_ones_dead() {
    let mut pool = OrderPool::new(2);
    let a = pool.insert(make_order(1)).unwrap();
    let b = pool.insert(make_order(2)).unwrap();
    pool.remove(a).unwrap();
    let c = pool.insert(make_order(3)).unwrap();
    assert_ne!(a, c);
    assert!(pool.get(a).is_none());
    assert_eq!(pool.get(b).unwrap().order_id, OrderId(2));
    assert_eq!(pool.get(c).unwrap().order_id, OrderId(3));
    assert!(pool.insert(make_order(4)).is_none());
}

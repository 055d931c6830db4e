use crate::events::{Event, RejectReason};
use crate::ladder::{
    best_of, in_ladder, lemma_best_of, lemma_best_of_shape, level_index, level_price, PriceLadder,
    LADDER_SIZE,
};
use crate::model::{self, BookView, Resting, Taker, MatchOutcome, opposite, stops_before, sum_remaining};
use crate::ops::Op;
use crate::order::Order;
use crate::pool::{OrderHandle, OrderPool, PoolView, same_but_links};
use crate::types::{OrderId, Price, Qty, SelfTradeMode, Side, SubaccountId};
use std::collections::HashMap;
use vstd::prelude::*;

verus! {

broadcast use crate::types::group_types, crate::pool::group_pool, vstd::std_specs::hash::group_hash_axioms;

pub(crate) struct MatchResult {
    pub remaining_qty: i64,
    pub stp_triggered: bool,
}

/// The id of the order in slot `i`.
pub open spec fn id_at(pool: PoolView, i: u32) -> u64 {
    pool.order(i as int).order_id.0
}

/// The ids of the orders in the slots `q`.
pub open spec fn ids_of(pool: PoolView, q: Seq<u32>) -> Seq<u64> {
    q.map_values(|i: u32| id_at(pool, i))
}

pub open spec fn ids_of_levels(pool: PoolView, qs: Seq<Seq<u32>>) -> Seq<Seq<u64>> {
    qs.map_values(|q: Seq<u32>| ids_of(pool, q))
}

pub open spec fn resting_of(o: Order) -> Resting {
    Resting {
        subaccount: o.subaccount,
        side: o.side,
        price: o.price,
        qty: o.qty,
        remaining: o.remaining,
    }
}

/// The sum of the remaining quantities of the orders in the slots `q`.
pub open spec fn sum_slots(pool: PoolView, q: Seq<u32>) -> int
    decreases q.len(),
{
    if q.len() == 0 {
        0
    } else {
        sum_slots(pool, q.drop_last()) + pool.order(q.last() as int).remaining
    }
}

/// A limit order book: an order pool, a price ladder per side, and an index
/// from order id to the order's handle.
pub struct OrderBook {
    pub(crate) pool: OrderPool,
    pub(crate) bids: PriceLadder,
    pub(crate) asks: PriceLadder,
    pub(crate) id_index: HashMap<u64, OrderHandle>,
}

impl View for OrderBook {
    type V = BookView;

    closed spec fn view(&self) -> BookView {
        let pool = self.pool@;
        let index = self.id_index@;
        BookView {
            reference: self.bids.reference_price(),
            capacity: pool.slots.len(),
            bids: ids_of_levels(pool, self.bids.queues()),
            asks: ids_of_levels(pool, self.asks.queues()),
            orders: Map::new(
                |id: u64| index.contains_key(id),
                |id: u64| resting_of(pool.order(index[id].slot() as int)),
            ),
        }
    }
}

impl OrderBook {
    pub closed spec fn ladder(self, side: Side) -> PriceLadder {
        match side {
            Side::Bid => self.bids,
            Side::Ask => self.asks,
        }
    }

    /// The index maps each resting order's id to its handle, and nothing else.
    pub closed spec fn index_wf(self) -> bool {
        let pool = self.pool@;
        let index = self.id_index@;
        &&& index.dom().finite()
        &&& index.dom().len() + pool.free.len() == pool.slots.len()
        &&& forall|id: u64|
            #[trigger] index.contains_key(id) ==> pool.valid(index[id]) && id_at(
                pool,
                index[id].slot(),
            ) == id
        &&& forall|i: int|
            #[trigger] pool.occupied(i) ==> index.contains_key(pool.order(i).order_id.0)
                && index[pool.order(i).order_id.0] == pool.handle_of(i)
    }

    /// Every stored order rests in the ladder of its side at the level of its
    /// price, with a positive remainder; each ladder holds orders of its side.
    pub closed spec fn placement_wf(self) -> bool {
        let pool = self.pool@;
        let reference = self.bids.reference_price().value();
        &&& forall|i: int|
            #[trigger] pool.occupied(i) ==> {
                let o = pool.order(i);
                &&& o.price.wf()
                &&& o.qty.wf()
                &&& o.remaining > 0
                &&& o.remaining <= o.qty.value()
                &&& in_ladder(o.price.value(), reference)
                &&& self.ladder(o.side).slots().contains_key(i as u32)
                &&& self.ladder(o.side).slots()[i as u32] == level_index(o.price.value(), reference)
            }
        &&& forall|i: u32|
            #[trigger] self.bids.slots().contains_key(i) ==> pool.order(i as int).side == Side::Bid
        &&& forall|i: u32|
            #[trigger] self.asks.slots().contains_key(i) ==> pool.order(i as int).side == Side::Ask
    }

    /// Each level records the sum of the remainders of its orders.
    pub closed spec fn totals_wf(self) -> bool {
        let pool = self.pool@;
        &&& forall|l: int|
            0 <= l < LADDER_SIZE ==> #[trigger] self.bids.totals()[l] == sum_slots(
                pool,
                self.bids.queues()[l],
            )
        &&& forall|l: int|
            0 <= l < LADDER_SIZE ==> #[trigger] self.asks.totals()[l] == sum_slots(
                pool,
                self.asks.queues()[l],
            )
    }

    pub closed spec fn wf(self) -> bool {
        &&& self.pool.wf()
        &&& self.bids.wf(self.pool@)
        &&& self.asks.wf(self.pool@)
        &&& self.bids.side_of() == Side::Bid
        &&& self.asks.side_of() == Side::Ask
        &&& self.asks.reference_price() == self.bids.reference_price()
        &&& self.index_wf()
        &&& self.placement_wf()
        &&& self.totals_wf()
    }

    pub fn new(reference: Price, capacity: usize) -> (r: Self)
        requires
            reference.wf(),
            capacity <= u32::MAX,
        ensures
            r.wf(),
            r@ == (BookView {
                reference,
                capacity: capacity as nat,
                bids: Seq::new(LADDER_SIZE as nat, |l: int| Seq::<u64>::empty()),
                asks: Seq::new(LADDER_SIZE as nat, |l: int| Seq::<u64>::empty()),
                orders: Map::empty(),
            }),
    {
        let r = Self {
            pool: OrderPool::new(capacity),
            bids: PriceLadder::new(reference, Side::Bid),
            asks: PriceLadder::new(reference, Side::Ask),
            id_index: HashMap::with_capacity(capacity),
        };
        proof {
            let pool = r.pool@;
            assert(r.bids.wf(pool));
            assert(r.asks.wf(pool));
            assert(r.id_index@.dom() =~= Set::<u64>::empty());
            assert forall|i: int| #[trigger] pool.occupied(i) implies false by {}
            assert forall|l: int| 0 <= l < LADDER_SIZE implies #[trigger] r@.bids[l] =~= Seq::<u64>::empty() by {
                assert(r.bids.queues()[l].len() == 0);
            }
            assert forall|l: int| 0 <= l < LADDER_SIZE implies #[trigger] r@.asks[l] =~= Seq::<u64>::empty() by {
                assert(r.asks.queues()[l].len() == 0);
            }
            assert(r@.bids =~= Seq::new(LADDER_SIZE as nat, |l: int| Seq::<u64>::empty()));
            assert(r@.asks =~= Seq::new(LADDER_SIZE as nat, |l: int| Seq::<u64>::empty()));
            assert(r@.orders =~= Map::<u64, Resting>::empty());
            assert forall|l: int| 0 <= l < LADDER_SIZE implies #[trigger] r.bids.totals()[l] == sum_slots(
                pool,
                r.bids.queues()[l],
            ) by {}
            assert forall|l: int| 0 <= l < LADDER_SIZE implies #[trigger] r.asks.totals()[l] == sum_slots(
                pool,
                r.asks.queues()[l],
            ) by {}
        }
        r
    }
}

/// Summing remainders by id agrees with summing them by slot, when each id
/// names the order in its slot.
pub proof fn lemma_sum_ids(pool: PoolView, orders: Map<u64, Resting>, q: Seq<u32>)
    requires
        forall|k: int|
            0 <= k < q.len() ==> orders.contains_key(id_at(pool, #[trigger] q[k]))
                && orders[id_at(pool, q[k])].remaining == pool.order(q[k] as int).remaining,
    ensures
        sum_remaining(orders, ids_of(pool, q)) == sum_slots(pool, q),
    decreases q.len(),
{
    if q.len() > 0 {
        let p = q.drop_last();
        assert forall|k: int|
            0 <= k < p.len() implies orders.contains_key(id_at(pool, #[trigger] p[k]))
            && orders[id_at(pool, p[k])].remaining == pool.order(p[k] as int).remaining by {
            assert(p[k] == q[k]);
        }
        lemma_sum_ids(pool, orders, p);
        assert(ids_of(pool, q).drop_last() =~= ids_of(pool, p));
        assert(q[q.len() - 1] == q.last());
    }
}

pub proof fn lemma_sum_frame(p1: PoolView, p2: PoolView, q: Seq<u32>)
    requires
        forall|k: int|
            0 <= k < q.len() ==> p2.order(#[trigger] q[k] as int).remaining == p1.order(
                q[k] as int,
            ).remaining,
    ensures
        sum_slots(p1, q) == sum_slots(p2, q),
    decreases q.len(),
{
    if q.len() > 0 {
        let p = q.drop_last();
        assert forall|k: int| 0 <= k < p.len() implies p2.order(#[trigger] p[k] as int).remaining
            == p1.order(p[k] as int).remaining by {
            assert(p[k] == q[k]);
        }
        lemma_sum_frame(p1, p2, p);
        assert(q[q.len() - 1] == q.last());
    }
}

pub proof fn lemma_sum_remove(p: PoolView, q: Seq<u32>, k: int)
    requires
        0 <= k < q.len(),
    ensures
        sum_slots(p, q) == sum_slots(p, q.remove(k)) + p.order(q[k] as int).remaining,
    decreases q.len(),
{
    if k == q.len() - 1 {
        assert(q.remove(k) =~= q.drop_last());
    } else {
        let d = q.drop_last();
        lemma_sum_remove(p, d, k);
        assert(q.remove(k).drop_last() =~= d.remove(k));
        assert(q.remove(k).last() == q.last());
    }
}

pub proof fn lemma_sum_push(p: PoolView, q: Seq<u32>, i: u32)
    ensures
        sum_slots(p, q.push(i)) == sum_slots(p, q) + p.order(i as int).remaining,
{
    assert(q.push(i).drop_last() =~= q);
}

pub proof fn lemma_sum_nonneg(p: PoolView, q: Seq<u32>)
    requires
        forall|k: int| 0 <= k < q.len() ==> p.order(#[trigger] q[k] as int).remaining > 0,
    ensures
        sum_slots(p, q) >= 0,
    decreases q.len(),
{
    if q.len() > 0 {
        let d = q.drop_last();
        assert forall|k: int| 0 <= k < d.len() implies p.order(#[trigger] d[k] as int).remaining
            > 0 by {
            assert(d[k] == q[k]);
        }
        lemma_sum_nonneg(p, d);
        assert(q[q.len() - 1] == q.last());
    }
}

pub proof fn lemma_ids_of_frame(p1: PoolView, p2: PoolView, q: Seq<u32>)
    requires
        forall|k: int| 0 <= k < q.len() ==> id_at(p2, #[trigger] q[k]) == id_at(p1, q[k]),
    ensures
        ids_of(p1, q) == ids_of(p2, q),
{
    assert(ids_of(p1, q) =~= ids_of(p2, q));
}

pub proof fn lemma_ids_of_remove(p: PoolView, q: Seq<u32>, k: int)
    requires
        0 <= k < q.len(),
    ensures
        ids_of(p, q.remove(k)) == ids_of(p, q).remove(k),
{
    assert(ids_of(p, q.remove(k)) =~= ids_of(p, q).remove(k));
}

pub proof fn lemma_ids_of_push(p: PoolView, q: Seq<u32>, i: u32)
    ensures
        ids_of(p, q.push(i)) == ids_of(p, q).push(id_at(p, i)),
{
    assert(ids_of(p, q.push(i)) =~= ids_of(p, q).push(id_at(p, i)));
}

pub proof fn lemma_index_of_unique(s: Seq<u64>, k: int)
    requires
        s.no_duplicates(),
        0 <= k < s.len(),
    ensures
        s.index_of(s[k]) == k,
{
    assert(s.contains(s[k]));
    let j = s.index_of(s[k]);
    assert(0 <= j < s.len() && s[j] == s[k]);
}

impl OrderBook {
    /// Two occupied slots holding orders with the same id are the same slot.
    proof fn lemma_ids_unique(self, i: int, j: int)
        requires
            self.wf(),
            self.pool@.occupied(i),
            self.pool@.occupied(j),
            self.pool@.order(i).order_id == self.pool@.order(j).order_id,
        ensures
            i == j,
    {
        let pool = self.pool@;
        self.pool.lemma_wf();
        assert(self.id_index@[pool.order(i).order_id.0] == pool.handle_of(i));
        assert(self.id_index@[pool.order(j).order_id.0] == pool.handle_of(j));
        assert(pool.handle_of(i).slot() == i as u32);
        pool.lemma_occupied_bound(i);
        pool.lemma_occupied_bound(j);
    }

    /// The facts about one ladder that the abstract view rests on.
    proof fn lemma_side(self, side: Side)
        requires
            self.wf(),
        ensures
            self@.levels(side) == ids_of_levels(self.pool@, self.ladder(side).queues()),
            self.ladder(side).side_of() == side,
            self.ladder(side).reference_price() == self@.reference,
            self.ladder(side).wf(self.pool@),
            self@.levels_wf(side),
            forall|l: int|
                0 <= l < LADDER_SIZE ==> #[trigger] self@.level_qty(side, l) == self.ladder(
                    side,
                ).totals()[l],
            self@.best_level(side) == self.ladder(side).best_index(),
    {
        let pool = self.pool@;
        let lad = self.ladder(side);
        let v = self@;
        let qs = lad.queues();
        lad.lemma_wf(pool);
        let levels = v.levels(side);
        assert(levels == ids_of_levels(pool, qs));
        assert forall|l: int, k: int| 0 <= l < LADDER_SIZE && 0 <= k < qs[l].len() implies {
            &&& self.id_index@.contains_key(#[trigger] id_at(pool, qs[l][k]))
            &&& self.id_index@[id_at(pool, qs[l][k])] == pool.handle_of(qs[l][k] as int)
            &&& v.orders.contains_key(id_at(pool, qs[l][k]))
            &&& v.orders[id_at(pool, qs[l][k])] == resting_of(pool.order(qs[l][k] as int))
            &&& pool.order(qs[l][k] as int).side == side
            &&& v.level_of(pool.order(qs[l][k] as int).price) == l
        } by {
            let i = qs[l][k];
            assert(pool.occupied(i as int));
            assert(lad.slots().contains_key(i) && lad.slots()[i] == l);
            assert(self.ladder(pool.order(i as int).side).slots().contains_key(i));
        }
        assert forall|l: int, k: int| 0 <= l < LADDER_SIZE && 0 <= k < levels[l].len() implies {
            &&& v.orders.contains_key(#[trigger] levels[l][k])
            &&& v.orders[levels[l][k]].side == side
            &&& v.level_of(v.orders[levels[l][k]].price) == l
        } by {
            assert(levels[l][k] == id_at(pool, qs[l][k]));
        }
        assert forall|l: int| 0 <= l < LADDER_SIZE implies (#[trigger] levels[l]).no_duplicates() by {
            assert forall|a: int, b: int|
                0 <= a < levels[l].len() && 0 <= b < levels[l].len() && a != b implies levels[l][a]
                != levels[l][b] by {
                assert(qs[l][a] != qs[l][b]);
                assert(levels[l][a] == id_at(pool, qs[l][a]));
                assert(levels[l][b] == id_at(pool, qs[l][b]));
                if levels[l][a] == levels[l][b] {
                    self.lemma_ids_unique(qs[l][a] as int, qs[l][b] as int);
                }
            }
        }
        assert forall|l: int| 0 <= l < LADDER_SIZE implies #[trigger] v.level_qty(side, l)
            == lad.totals()[l] by {
            assert forall|k: int| 0 <= k < qs[l].len() implies v.orders.contains_key(
                id_at(pool, #[trigger] qs[l][k]),
            ) && v.orders[id_at(pool, qs[l][k])].remaining == pool.order(
                qs[l][k] as int,
            ).remaining by {
                assert(self.id_index@.contains_key(id_at(pool, qs[l][k])));
            }
            lemma_sum_ids(pool, v.orders, qs[l]);
            assert(levels[l] == ids_of(pool, qs[l]));
        }
        assert forall|l: int| 0 <= l < levels.len() implies (#[trigger] levels[l]).len() == 0
            <==> qs[l].len() == 0 by {
            assert(levels[l] == ids_of(pool, qs[l]));
        }
        lemma_best_of_shape(side, levels, qs);
    }

    /// A well-formed book has a well-formed view.
    pub proof fn lemma_view_wf(self)
        requires
            self.wf(),
        ensures
            self@.wf(),
    {
        let pool = self.pool@;
        let v = self@;
        self.lemma_side(Side::Bid);
        self.lemma_side(Side::Ask);
        assert(v.orders.dom() =~= self.id_index@.dom());
        assert forall|id: u64| #[trigger] v.orders.contains_key(id) implies {
            let r = v.orders[id];
            &&& r.price.wf()
            &&& r.qty.wf()
            &&& r.remaining > 0
            &&& r.remaining <= r.qty.value()
            &&& in_ladder(r.price.value(), v.reference.value())
            &&& v.levels(r.side)[v.level_of(r.price)].contains(id)
        } by {
            let i = self.id_index@[id].slot() as int;
            assert(self.id_index@.contains_key(id));
            assert(pool.occupied(i));
            let o = pool.order(i);
            let lad = self.ladder(o.side);
            let l = v.level_of(o.price);
            assert(lad.slots().contains_key(i as u32));
            lad.lemma_wf(pool);
            let q = lad.queues()[l];
            assert(q.contains(i as u32));
            let k = choose|k: int| 0 <= k < q.len() && q[k] == i as u32;
            assert(v.levels(o.side)[l][k] == id_at(pool, q[k]));
        }
        self.bids.lemma_wf(pool);
        assert(v.reference.wf());
        assert(v.levels_wf(Side::Bid));
        assert(v.levels_wf(Side::Ask));
        assert(v.orders.dom().finite());
        assert(v.resting_count() <= v.capacity);
    }

    /// The best (highest) bid price, or `None` if there are no bids.
    pub fn best_bid(&self) -> (r: Option<Price>)
        requires
            self.wf(),
        ensures
            match self@.best_price(Side::Bid) {
                Some(p) => r is Some && r->0.value() == p,
                None => r is None,
            },
    {
        proof {
            self.lemma_side(Side::Bid);
            assert(self.bids.wf(self.pool@));
        }
        self.bids.best_price()
    }

    /// The best (lowest) ask price, or `None` if there are no asks.
    pub fn best_ask(&self) -> (r: Option<Price>)
        requires
            self.wf(),
        ensures
            match self@.best_price(Side::Ask) {
                Some(p) => r is Some && r->0.value() == p,
                None => r is None,
            },
    {
        proof {
            self.lemma_side(Side::Ask);
            assert(self.asks.wf(self.pool@));
        }
        self.asks.best_price()
    }

    /// The total remaining quantity at the best bid (zero if there are no bids).
    pub fn best_bid_qty(&self) -> (r: i64)
        requires
            self.wf(),
        ensures
            r == self@.best_qty(Side::Bid),
    {
        proof {
            self.lemma_side(Side::Bid);
            assert(self.bids.wf(self.pool@));
            self.bids.lemma_wf(self.pool@);
            lemma_best_of(Side::Bid, self.bids.queues());
            if let Some(b) = self@.best_level(Side::Bid) {
                assert(self@.level_qty(Side::Bid, b) == self.bids.totals()[b]);
            }
        }
        match self.bids.best_level() {
            Some(l) => l.total_qty(),
            None => 0,
        }
    }

    /// The total remaining quantity at the best ask (zero if there are no asks).
    pub fn best_ask_qty(&self) -> (r: i64)
        requires
            self.wf(),
        ensures
            r == self@.best_qty(Side::Ask),
    {
        proof {
            self.lemma_side(Side::Ask);
            assert(self.asks.wf(self.pool@));
            self.asks.lemma_wf(self.pool@);
            lemma_best_of(Side::Ask, self.asks.queues());
            if let Some(b) = self@.best_level(Side::Ask) {
                assert(self@.level_qty(Side::Ask, b) == self.asks.totals()[b]);
            }
        }
        match self.asks.best_level() {
            Some(l) => l.total_qty(),
            None => 0,
        }
    }

    /// Takes the order in `handle`'s slot out of its ladder, the pool and the
    /// index.
    fn remove_resting(&mut self, handle: OrderHandle, order: Order)
        requires
            old(self).wf(),
            old(self).pool@.valid(handle),
            order == old(self).pool@.order(handle.slot() as int),
        ensures
            final(self).wf(),
            final(self)@ == old(self)@.remove_order(order.order_id.0),
    {
        let ghost s0 = *self;
        let ghost i = handle.slot();
        let ghost p0 = self.pool@;
        let ghost side = order.side;
        let ghost reference = self.bids.reference_price().value();
        let ghost l = level_index(order.price.value(), reference);
        let ghost q = s0.ladder(side).queues()[l];
        let ghost k = q.index_of(i);
        let ghost id = order.order_id.0;
        proof {
            self.pool.lemma_wf();
            assert(p0.occupied(i as int));
            s0.ladder(side).lemma_wf(p0);
            assert(s0.ladder(side).slots().contains_key(i));
            assert(q.contains(i));
            assert(0 <= k < q.len() && q[k] == i);
            lemma_sum_remove(p0, q, k);
            assert forall|j: int| 0 <= j < q.remove(k).len() implies p0.order(
                #[trigger] q.remove(k)[j] as int,
            ).remaining > 0 by {
                let j1 = if j < k {
                    j
                } else {
                    j + 1
                };
                assert(q.remove(k)[j] == q[j1]);
                assert(p0.occupied(q[j1] as int));
            }
            lemma_sum_nonneg(p0, q.remove(k));
            assert(s0.ladder(side).totals()[l] == sum_slots(p0, q));
        }
        match order.side {
            Side::Bid => self.bids.remove_order(handle, order.price, order.remaining, &mut self.pool),
            Side::Ask => self.asks.remove_order(handle, order.price, order.remaining, &mut self.pool),
        }
        let ghost p1 = self.pool@;
        let _ = self.pool.remove(handle);
        let _ = self.id_index.remove(&order.order_id.0);
        proof {
            let p2 = self.pool@;
            let oside = opposite(side);
            let lad = self.ladder(side);
            let other = self.ladder(oside);
            assert(other == s0.ladder(oside));
            assert(p1.slots[i as int].generation == p0.slots[i as int].generation);
            // slots other than i keep their order data, and their links unless in q
            assert forall|j: int| 0 <= j < p0.slots.len() && j != i implies {
                &&& #[trigger] p2.slots[j].generation == p0.slots[j].generation
                &&& (p2.slots[j].order is Some <==> p0.slots[j].order is Some)
                &&& p0.slots[j].order is Some ==> same_but_links(p0.order(j), p2.order(j))
                &&& !q.to_set().contains(j as u32) ==> p2.slots[j] == p0.slots[j]
            } by {
                assert(p2.slots[j] == p1.slots[j]);
                assert(p1.slots[j].generation == p0.slots[j].generation);
            }
            // the ladder of the order's side
            assert forall|x: u32| #[trigger] lad.slots().contains_key(x) implies {
                &&& p2.occupied(x as int)
                &&& p2.order(x as int).prev == p1.order(x as int).prev
                &&& p2.order(x as int).next == p1.order(x as int).next
            } by {
                lad.lemma_wf(p1);
                let m = lad.slots()[x];
                let kk = choose|kk: int| 0 <= kk < lad.queues()[m].len() && lad.queues()[m][kk] == x;
                assert(p1.occupied(lad.queues()[m][kk] as int));
                assert(x != i);
                assert(p2.slots[x as int] == p1.slots[x as int]);
            }
            lad.lemma_frame(p1, p2);
            // the other ladder holds nothing in q and not i
            assert forall|x: u32| #[trigger] other.slots().contains_key(x) implies {
                &&& p2.occupied(x as int)
                &&& p2.order(x as int).prev == p0.order(x as int).prev
                &&& p2.order(x as int).next == p0.order(x as int).next
            } by {
                other.lemma_wf(p0);
                let m = other.slots()[x];
                let kk = choose|kk: int| 0 <= kk < other.queues()[m].len() && other.queues()[m][kk] == x;
                assert(p0.occupied(other.queues()[m][kk] as int));
                assert(p0.order(x as int).side == oside);
                assert(x != i);
                assert(!q.to_set().contains(x)) by {
                    if q.contains(x) {
                        let jj = choose|jj: int| 0 <= jj < q.len() && q[jj] == x;
                        assert(s0.ladder(side).slots().contains_key(q[jj]));
                    }
                }
                assert(p2.slots[x as int] == p0.slots[x as int]);
            }
            other.lemma_frame(p0, p2);
            let idx0 = s0.id_index@;
            let idx = self.id_index@;
            assert(idx0.contains_key(id));
            assert(idx0[id] == handle);
            assert(idx == idx0.remove(id));
            assert(idx.dom() =~= idx0.dom().remove(id));
            assert(p2.free.len() == p0.free.len() + 1);
            assert forall|x: u64| #[trigger] idx.contains_key(x) implies p2.valid(idx[x]) && id_at(
                p2,
                idx[x].slot(),
            ) == x by {
                assert(idx0.contains_key(x));
                let j = idx0[x].slot() as int;
                assert(p0.valid(idx0[x]));
                assert(j != i);
                assert(p2.slots[j].generation == p0.slots[j].generation);
                assert(same_but_links(p0.order(j), p2.order(j)));
            }
            assert forall|j: int| #[trigger] p2.occupied(j) implies idx.contains_key(
                p2.order(j).order_id.0,
            ) && idx[p2.order(j).order_id.0] == p2.handle_of(j) by {
                assert(j != i);
                assert(p0.occupied(j));
                assert(same_but_links(p0.order(j), p2.order(j)));
                assert(idx0[p0.order(j).order_id.0] == p0.handle_of(j));
                if p0.order(j).order_id.0 == id {
                    s0.lemma_ids_unique(i as int, j);
                }
            }
            assert(self.index_wf());
            assert(self.bids.reference_price().value() == reference);
            assert forall|j: int| #[trigger] p2.occupied(j) implies {
                let o = p2.order(j);
                &&& o.price.wf()
                &&& o.qty.wf()
                &&& o.remaining > 0
                &&& o.remaining <= o.qty.value()
                &&& in_ladder(o.price.value(), reference)
                &&& self.ladder(o.side).slots().contains_key(j as u32)
                &&& self.ladder(o.side).slots()[j as u32] == level_index(o.price.value(), reference)
            } by {
                assert(j != i);
                assert(p0.occupied(j));
                assert(same_but_links(p0.order(j), p2.order(j)));
                assert(s0.ladder(p0.order(j).side).slots().contains_key(j as u32));
                assert(j as u32 != i) by {
                    p0.lemma_occupied_bound(j);
                }
            }
            assert forall|x: u32| #[trigger] self.bids.slots().contains_key(x) implies p2.order(
                x as int,
            ).side == Side::Bid by {
                assert(s0.bids.slots().contains_key(x));
                assert(x != i);
                assert(p0.occupied(x as int));
                assert(same_but_links(p0.order(x as int), p2.order(x as int)));
            }
            assert forall|x: u32| #[trigger] self.asks.slots().contains_key(x) implies p2.order(
                x as int,
            ).side == Side::Ask by {
                assert(s0.asks.slots().contains_key(x));
                assert(x != i);
                assert(p0.occupied(x as int));
                assert(same_but_links(p0.order(x as int), p2.order(x as int)));
            }
            assert(self.placement_wf());
            // every order still held keeps its data
            assert forall|x: u32|
                self.bids.slots().contains_key(x) || self.asks.slots().contains_key(x) implies x
                != i && p0.occupied(x as int) && same_but_links(
                p0.order(x as int),
                p2.order(x as int),
            ) by {
                if self.bids.slots().contains_key(x) {
                    assert(s0.bids.slots().contains_key(x));
                } else {
                    assert(s0.asks.slots().contains_key(x));
                }
            }
            let qr = q.remove(k);
            assert forall|j: int| 0 <= j < qr.len() implies (#[trigger] qr[j]) != i && p0.occupied(
                qr[j] as int,
            ) && same_but_links(p0.order(qr[j] as int), p2.order(qr[j] as int)) by {
                assert(lad.queues()[l] == qr);
                lad.lemma_wf(p2);
                assert(lad.slots().contains_key(lad.queues()[l][j]));
            }
            self.lemma_levels_after(s0, side, l, qr, p0);
            self.lemma_levels_after(s0, oside, -1, seq![], p0);
            s0.lemma_side(side);
            s0.lemma_side(oside);
            let v0 = s0@;
            let qv = ids_of(p0, q);
            assert(v0.levels(side)[l] == qv);
            assert(qv[k] == id);
            lemma_index_of_unique(qv, k);
            lemma_ids_of_remove(p0, q, k);
            assert(v0.orders[id] == resting_of(order));
            let target = v0.remove_order(id);
            assert(self@.levels(side) == target.levels(side));
            assert(self@.levels(oside) == target.levels(oside));
            assert(self@.orders =~= target.orders) by {
                assert forall|x: u64| #[trigger] self@.orders.contains_key(x) implies self@.orders[x]
                    == target.orders[x] by {
                    let j = idx0[x].slot() as int;
                    assert(idx.contains_key(x));
                    assert(j != i);
                    assert(same_but_links(p0.order(j), p2.order(j)));
                }
            }
            assert(self@.bids == target.bids);
            assert(self@.asks == target.asks);

        }
    }

    /// After an update of the book that keeps the data of every order still
    /// held, a ladder's totals and ids follow its queues; `l` names the one
    /// level whose queue became `ql` (or none, if `l` is negative).
    proof fn lemma_levels_after(self, s0: Self, side: Side, l: int, ql: Seq<u32>, p0: PoolView)
        requires
            self.ladder(side).wf(self.pool@),
            s0.ladder(side).wf(p0),
            forall|x: u32|
                #[trigger] self.ladder(side).slots().contains_key(x) ==> p0.occupied(x as int)
                    && same_but_links(p0.order(x as int), self.pool@.order(x as int)),
            0 <= l < LADDER_SIZE ==> self.ladder(side).queues() == s0.ladder(side).queues().update(l, ql),
            !(0 <= l < LADDER_SIZE) ==> self.ladder(side).queues() == s0.ladder(side).queues(),
        ensures
            forall|m: int|
                0 <= m < LADDER_SIZE && m != l ==> #[trigger] sum_slots(
                    self.pool@,
                    self.ladder(side).queues()[m],
                ) == sum_slots(p0, s0.ladder(side).queues()[m]),
            0 <= l < LADDER_SIZE ==> sum_slots(self.pool@, ql) == sum_slots(p0, ql),
            ids_of_levels(self.pool@, self.ladder(side).queues()) == if 0 <= l < LADDER_SIZE {
                ids_of_levels(p0, s0.ladder(side).queues()).update(l, ids_of(p0, ql))
            } else {
                ids_of_levels(p0, s0.ladder(side).queues())
            },
    {
        let p2 = self.pool@;
        let lad = self.ladder(side);
        lad.lemma_wf(p2);
        s0.ladder(side).lemma_wf(p0);
        assert forall|m: int| 0 <= m < LADDER_SIZE implies {
            &&& sum_slots(p2, #[trigger] lad.queues()[m]) == sum_slots(p0, lad.queues()[m])
            &&& ids_of(p2, lad.queues()[m]) == ids_of(p0, lad.queues()[m])
        } by {
            let qm = lad.queues()[m];
            assert forall|j: int| 0 <= j < qm.len() implies {
                &&& p2.order(#[trigger] qm[j] as int).remaining == p0.order(qm[j] as int).remaining
                &&& id_at(p2, qm[j]) == id_at(p0, qm[j])
            } by {
                assert(lad.slots().contains_key(qm[j]));
            }
            lemma_sum_frame(p0, p2, qm);
            lemma_ids_of_frame(p0, p2, qm);
        }
        if 0 <= l < LADDER_SIZE {
            assert(lad.queues()[l] == ql);
        }
        assert(ids_of_levels(p2, lad.queues()) =~= if 0 <= l < LADDER_SIZE {
            ids_of_levels(p0, s0.ladder(side).queues()).update(l, ids_of(p0, ql))
        } else {
            ids_of_levels(p0, s0.ladder(side).queues())
        });
    }

    /// Lowers the remainder of the order in slot `index` by `fill`.
    fn reduce_resting(&mut self, index: u32, order: Order, fill: i64)
        requires
            old(self).wf(),
            old(self).pool@.occupied(index as int),
            order == old(self).pool@.order(index as int),
            0 < fill < order.remaining,
        ensures
            final(self).wf(),
            final(self)@ == old(self)@.reduce_order(order.order_id.0, fill),
    {
        let ghost s0 = *self;
        let ghost p0 = self.pool@;
        let ghost side = order.side;
        let ghost reference = self.bids.reference_price().value();
        let ghost l = level_index(order.price.value(), reference);
        let ghost q = s0.ladder(side).queues()[l];
        let ghost id = order.order_id.0;
        let ghost k = q.index_of(index);
        proof {
            self.pool.lemma_wf();
            s0.ladder(side).lemma_wf(p0);
            assert(s0.ladder(side).slots().contains_key(index));
            assert(q.contains(index));
            assert(0 <= k < q.len() && q[k] == index);
            lemma_sum_remove(p0, q, k);
            assert forall|j: int| 0 <= j < q.remove(k).len() implies p0.order(
                #[trigger] q.remove(k)[j] as int,
            ).remaining > 0 by {
                let j1 = if j < k {
                    j
                } else {
                    j + 1
                };
                assert(q.remove(k)[j] == q[j1]);
                assert(p0.occupied(q[j1] as int));
            }
            lemma_sum_nonneg(p0, q.remove(k));
            assert(s0.ladder(side).totals()[l] == sum_slots(p0, q));
        }
        let m = self.pool.get_by_index_mut(index);
        m.remaining = m.remaining - fill;
        proof {
            assert(self.bids.wf(p0));
            assert(self.asks.wf(p0));
        }
        match order.side {
            Side::Bid => self.bids.decrease_level_qty(order.price, fill),
            Side::Ask => self.asks.decrease_level_qty(order.price, fill),
        }
        proof {
            let p1 = self.pool@;
            let o1 = Order { remaining: (order.remaining - fill) as i64, ..order };
            assert(p1 == p0.with_order(index as int, o1));
            let oside = opposite(side);
            assert forall|x: u32| #[trigger] self.bids.slots().contains_key(x) implies {
                &&& p1.occupied(x as int)
                &&& p1.order(x as int).prev == p0.order(x as int).prev
                &&& p1.order(x as int).next == p0.order(x as int).next
            } by {
                s0.bids.lemma_wf(p0);
                let mm = s0.bids.slots()[x];
                let kk = choose|kk: int| 0 <= kk < s0.bids.queues()[mm].len() && s0.bids.queues()[mm][kk] == x;
                assert(p0.occupied(s0.bids.queues()[mm][kk] as int));
            }
            assert forall|x: u32| #[trigger] self.asks.slots().contains_key(x) implies {
                &&& p1.occupied(x as int)
                &&& p1.order(x as int).prev == p0.order(x as int).prev
                &&& p1.order(x as int).next == p0.order(x as int).next
            } by {
                s0.asks.lemma_wf(p0);
                let mm = s0.asks.slots()[x];
                let kk = choose|kk: int| 0 <= kk < s0.asks.queues()[mm].len() && s0.asks.queues()[mm][kk] == x;
                assert(p0.occupied(s0.asks.queues()[mm][kk] as int));
            }
            self.bids.lemma_frame(p0, p1);
            self.asks.lemma_frame(p0, p1);
            assert(self.bids.wf(p1));
            assert(self.asks.wf(p1));
            let idx = self.id_index@;
            assert forall|x: u64| #[trigger] idx.contains_key(x) implies p1.valid(idx[x]) && id_at(
                p1,
                idx[x].slot(),
            ) == x by {}
            assert forall|j: int| #[trigger] p1.occupied(j) implies idx.contains_key(
                p1.order(j).order_id.0,
            ) && idx[p1.order(j).order_id.0] == p1.handle_of(j) by {
                assert(p0.occupied(j));
            }
            assert(self.index_wf());
            assert forall|j: int| #[trigger] p1.occupied(j) implies {
                let o = p1.order(j);
                &&& o.price.wf()
                &&& o.qty.wf()
                &&& o.remaining > 0
                &&& o.remaining <= o.qty.value()
                &&& in_ladder(o.price.value(), reference)
                &&& self.ladder(o.side).slots().contains_key(j as u32)
                &&& self.ladder(o.side).slots()[j as u32] == level_index(o.price.value(), reference)
            } by {
                assert(p0.occupied(j));
            }
            assert(self.placement_wf());
            // sums: only level l of the order's side changes, by `fill`
            let qr = q.remove(k);
            assert forall|j: int| 0 <= j < qr.len() implies p1.order(#[trigger] qr[j] as int).remaining
                == p0.order(qr[j] as int).remaining by {
                let j1 = if j < k {
                    j
                } else {
                    j + 1
                };
                assert(qr[j] == q[j1]);
                assert(q[j1] != q[k]);
            }
            lemma_sum_frame(p0, p1, qr);
            lemma_sum_remove(p1, q, k);
            assert forall|ss: Side, m: int| 0 <= m < LADDER_SIZE && !(ss == side && m == l) implies
                #[trigger] sum_slots(p1, self.ladder(ss).queues()[m]) == sum_slots(
                p0,
                s0.ladder(ss).queues()[m],
            ) by {
                let qm = s0.ladder(ss).queues()[m];
                assert(self.ladder(ss).queues() == s0.ladder(ss).queues());
                assert forall|j: int| 0 <= j < qm.len() implies p1.order(#[trigger] qm[j] as int).remaining
                    == p0.order(qm[j] as int).remaining by {
                    s0.ladder(ss).lemma_wf(p0);
                    assert(s0.ladder(ss).slots().contains_key(qm[j]));
                    if qm[j] == index {
                        assert(s0.ladder(ss).slots()[index] == m);
                        assert(s0.ladder(side).slots().contains_key(index));
                        assert(p0.order(index as int).side == ss);
                    }
                }
                lemma_sum_frame(p0, p1, qm);
            }
            assert forall|m: int| 0 <= m < LADDER_SIZE implies #[trigger] self.bids.totals()[m]
                == sum_slots(p1, self.bids.queues()[m]) by {
                assert(sum_slots(p1, self.ladder(Side::Bid).queues()[m]) == sum_slots(p1, self.bids.queues()[m]));
            }
            assert forall|m: int| 0 <= m < LADDER_SIZE implies #[trigger] self.asks.totals()[m]
                == sum_slots(p1, self.asks.queues()[m]) by {
                assert(sum_slots(p1, self.ladder(Side::Ask).queues()[m]) == sum_slots(p1, self.asks.queues()[m]));
            }
            assert(self.totals_wf());
            // the view
            assert forall|m: int| 0 <= m < LADDER_SIZE implies #[trigger] ids_of(p1, self.bids.queues()[m])
                == ids_of(p0, s0.bids.queues()[m]) by {
                let qm = s0.bids.queues()[m];
                assert forall|j: int| 0 <= j < qm.len() implies id_at(p1, #[trigger] qm[j]) == id_at(p0, qm[j]) by {
                    s0.bids.lemma_wf(p0);
                    assert(p0.occupied(qm[j] as int));
                }
                lemma_ids_of_frame(p0, p1, qm);
            }
            assert forall|m: int| 0 <= m < LADDER_SIZE implies #[trigger] ids_of(p1, self.asks.queues()[m])
                == ids_of(p0, s0.asks.queues()[m]) by {
                let qm = s0.asks.queues()[m];
                assert forall|j: int| 0 <= j < qm.len() implies id_at(p1, #[trigger] qm[j]) == id_at(p0, qm[j]) by {
                    s0.asks.lemma_wf(p0);
                    assert(p0.occupied(qm[j] as int));
                }
                lemma_ids_of_frame(p0, p1, qm);
            }
            s0.bids.lemma_wf(p0);
            s0.asks.lemma_wf(p0);
            assert(self@.bids =~= s0@.bids);
            assert(self@.asks =~= s0@.asks);
            let target = s0@.reduce_order(id, fill);
            assert(s0.id_index@[id] == p0.handle_of(index as int));
            assert(self@.orders =~= target.orders) by {
                assert forall|x: u64| #[trigger] self@.orders.contains_key(x) implies self@.orders[x]
                    == target.orders[x] by {
                    if x != id {
                        let j = idx[x].slot() as int;
                        assert(j != index);
                    }
                }
            }
        }
    }

    /// The order queued at position `k` of level `l` of `side`, as the view
    /// and the index see it.
    proof fn lemma_order_at(self, side: Side, l: int, k: int)
        requires
            self.wf(),
            0 <= l < LADDER_SIZE,
            0 <= k < self.ladder(side).queues()[l].len(),
        ensures
            ({
                let i = self.ladder(side).queues()[l][k];
                let id = id_at(self.pool@, i);
                &&& self.pool@.occupied(i as int)
                &&& self@.levels(side)[l][k] == id
                &&& self@.orders.contains_key(id)
                &&& self@.orders[id] == resting_of(self.pool@.order(i as int))
                &&& self.id_index@.contains_key(id)
                &&& self.id_index@[id] == self.pool@.handle_of(i as int)
                &&& self.pool@.valid(self.pool@.handle_of(i as int))
            }),
    {
        let pool = self.pool@;
        let lad = self.ladder(side);
        lad.lemma_wf(pool);
        let i = lad.queues()[l][k];
        assert(pool.occupied(i as int));
        self.lemma_side(side);
        assert(self@.levels(side)[l] == ids_of(pool, lad.queues()[l]));
        assert(self.id_index@.contains_key(pool.order(i as int).order_id.0));
        self.pool.lemma_wf();
    }

    /// Takes a resting ask out of the book, reporting it cancelled.
    fn cancel_maker_in_place_ask(&mut self, maker: &Order, events: &mut Vec<Event>)
        requires
            old(self).wf(),
            old(self).id_index@.contains_key(maker.order_id.0),
            maker.side == Side::Ask,
            *maker == old(self).pool@.order(old(self).id_index@[maker.order_id.0].slot() as int),
        ensures
            final(self).wf(),
            final(self)@ == old(self)@.remove_order(maker.order_id.0),
            final(events)@ == old(events)@.push(
                model::cancelled(maker.order_id, maker.subaccount, maker.remaining),
            ),
    {
        let handle = match self.id_index.get(&maker.order_id.0) {
            Some(h) => *h,
            None => {
                proof {
                    assert(false);
                }
                return ;
            },
        };
        let ghost i = handle.slot() as int;
        proof {
            assert(self.pool@.occupied(i));
        }
        self.remove_resting(handle, *maker);
        events.push(
            Event::Cancelled {
                order_id: maker.order_id,
                subaccount: maker.subaccount,
                remaining_qty: Qty::new(maker.remaining).unwrap(),
            },
        );
    }

    /// Takes a resting bid out of the book, reporting it cancelled.
    fn cancel_maker_in_place_bid(&mut self, maker: &Order, events: &mut Vec<Event>)
        requires
            old(self).wf(),
            old(self).id_index@.contains_key(maker.order_id.0),
            maker.side == Side::Bid,
            *maker == old(self).pool@.order(old(self).id_index@[maker.order_id.0].slot() as int),
        ensures
            final(self).wf(),
            final(self)@ == old(self)@.remove_order(maker.order_id.0),
            final(events)@ == old(events)@.push(
                model::cancelled(maker.order_id, maker.subaccount, maker.remaining),
            ),
    {
        let handle = match self.id_index.get(&maker.order_id.0) {
            Some(h) => *h,
            None => {
                proof {
                    assert(false);
                }
                return ;
            },
        };
        let ghost i = handle.slot() as int;
        proof {
            assert(self.pool@.occupied(i));
        }
        self.remove_resting(handle, *maker);
        events.push(
            Event::Cancelled {
                order_id: maker.order_id,
                subaccount: maker.subaccount,
                remaining_qty: Qty::new(maker.remaining).unwrap(),
            },
        );
    }

    /// Matches a taker on `taker_side` against the opposite ladder, in
    /// price-time priority, applying self-trade prevention.
    fn match_against(
        &mut self,
        taker_side: Side,
        taker_id: OrderId,
        taker_subaccount: SubaccountId,
        taker_price: Price,
        taker_qty: Qty,
        stp: SelfTradeMode,
        events: &mut Vec<Event>,
    ) -> (r: MatchResult)
        requires
            old(self).wf(),
            taker_qty.wf(),
        ensures
            final(self).wf(),
            ({
                let m = model::match_taker(
                    old(self)@,
                    Taker {
                        order_id: taker_id,
                        subaccount: taker_subaccount,
                        side: taker_side,
                        price: taker_price,
                        stp,
                    },
                    taker_qty.value(),
                );
                &&& final(self)@ == m.book
                &&& final(events)@ == old(events)@ + m.events
                &&& r.remaining_qty == m.remaining
                &&& r.stp_triggered == m.stp
            }),
    {
        let ghost t = Taker {
            order_id: taker_id,
            subaccount: taker_subaccount,
            side: taker_side,
            price: taker_price,
            stp,
        };
        let ghost m0 = model::match_taker(self@, t, taker_qty.value());
        let ghost e0 = events@;
        let ghost opp = opposite(taker_side);
        let mut remaining = taker_qty.raw();
        loop
            invariant
                self.wf(),
                remaining >= 0,
                t == (Taker {
                    order_id: taker_id,
                    subaccount: taker_subaccount,
                    side: taker_side,
                    price: taker_price,
                    stp,
                }),
                opp == opposite(taker_side),
                m0 == model::match_taker(old(self)@, t, taker_qty.value()),
                e0 == old(events)@,
                ({
                    let m = model::match_taker(self@, t, remaining);
                    &&& m.book == m0.book
                    &&& m.remaining == m0.remaining
                    &&& m.stp == m0.stp
                    &&& events@ + m.events == e0 + m0.events
                }),
            decreases remaining + self@.orders.dom().len(),
        {
            proof {
                self.lemma_view_wf();
                self.lemma_side(opp);
            }
            if remaining == 0 {
                proof {
                    assert(e0 + m0.events =~= events@);
                }
                return MatchResult { remaining_qty: remaining, stp_triggered: false };
            }
            let best = match taker_side {
                Side::Bid => self.asks.best_price(),
                Side::Ask => self.bids.best_price(),
            };
            let best_price = match best {
                Some(p) => p,
                None => {
                    proof {
                        assert(e0 + m0.events =~= events@);
                    }
                    return MatchResult { remaining_qty: remaining, stp_triggered: false };
                },
            };
            let stops = match taker_side {
                Side::Bid => best_price.raw() > taker_price.raw(),
                Side::Ask => best_price.raw() < taker_price.raw(),
            };
            if stops {
                proof {
                    assert(e0 + m0.events =~= events@);
                }
                return MatchResult { remaining_qty: remaining, stp_triggered: false };
            }
            let level = match taker_side {
                Side::Bid => self.asks.best_level(),
                Side::Ask => self.bids.best_level(),
            };
            let ghost b = self@.best_level(opp)->0;
            proof {
                crate::ladder::lemma_best_of(opp, self.ladder(opp).queues());
                self.ladder(opp).lemma_wf(self.pool@);
                assert(level->0.wf(self.pool@));
            }
            let head_idx = match level {
                Some(lvl) => match lvl.front() {
                    Some(i) => i,
                    None => {
                        proof {
                            assert(false);
                        }
                        return MatchResult { remaining_qty: remaining, stp_triggered: false };
                    },
                },
                None => {
                    proof {
                        assert(false);
                    }
                    return MatchResult { remaining_qty: remaining, stp_triggered: false };
                },
            };
            proof {
                self.lemma_order_at(opp, b, 0);
            }
            let maker = *self.pool.get_by_index(head_idx);
            let ghost id = maker.order_id.0;
            let ghost v = self@;
            proof {
                assert(v.levels(opp)[b][0] == id);
                assert(v.orders[id] == resting_of(maker));
                assert(maker.remaining > 0);
                assert(maker.side == opp);
            }
            if maker.subaccount == taker_subaccount {
                match stp {
                    SelfTradeMode::ExpireTaker => {
                        events.push(
                            Event::Cancelled {
                                order_id: taker_id,
                                subaccount: taker_subaccount,
                                remaining_qty: Qty::new(remaining).unwrap(),
                            },
                        );
                        proof {
                            assert(e0 + m0.events =~= events@);
                        }
                        return MatchResult { remaining_qty: 0, stp_triggered: true };
                    },
                    SelfTradeMode::ExpireMaker => {
                        match taker_side {
                            Side::Bid => self.cancel_maker_in_place_ask(&maker, events),
                            Side::Ask => self.cancel_maker_in_place_bid(&maker, events),
                        }
                        proof {
                            let rest = model::match_taker(self@, t, remaining);
                            assert(events@ + rest.events =~= e0 + m0.events);
                        }
                        continue ;
                    },
                    SelfTradeMode::ExpireBoth => {
                        match taker_side {
                            Side::Bid => self.cancel_maker_in_place_ask(&maker, events),
                            Side::Ask => self.cancel_maker_in_place_bid(&maker, events),
                        }
                        events.push(
                            Event::Cancelled {
                                order_id: taker_id,
                                subaccount: taker_subaccount,
                                remaining_qty: Qty::new(remaining).unwrap(),
                            },
                        );
                        proof {
                            assert(e0 + m0.events =~= events@);
                        }
                        return MatchResult { remaining_qty: 0, stp_triggered: true };
                    },
                }
            }
            let fill_qty = if remaining <= maker.remaining {
                remaining
            } else {
                maker.remaining
            };
            events.push(
                Event::Trade {
                    maker_order_id: maker.order_id,
                    taker_order_id: taker_id,
                    maker_subaccount: maker.subaccount,
                    taker_subaccount,
                    price: maker.price,
                    qty: Qty::new(fill_qty).unwrap(),
                },
            );
            remaining = remaining - fill_qty;
            let new_maker_remaining = maker.remaining - fill_qty;
            if new_maker_remaining == 0 {
                let handle = match self.id_index.get(&maker.order_id.0) {
                    Some(h) => *h,
                    None => {
                        proof {
                            assert(false);
                        }
                        return MatchResult { remaining_qty: remaining, stp_triggered: false };
                    },
                };
                self.remove_resting(handle, maker);
            } else {
                self.reduce_resting(head_idx, maker, fill_qty);
            }
            proof {
                let rest = model::match_taker(self@, t, remaining);
                assert(events@ + rest.events =~= e0 + m0.events);
            }
        }
    }

    /// Changing a slot that no ladder holds keeps both ladders, their ids and
    /// their sums.
    proof fn lemma_pool_extend(self, p1: PoolView, i: int)
        requires
            self.wf(),
            !self.pool@.occupied(i),
            p1.slots.len() == self.pool@.slots.len(),
            forall|j: int| 0 <= j < p1.slots.len() && j != i ==> #[trigger] p1.slots[j] == self.pool@.slots[j],
        ensures
            forall|ss: Side|
                {
                    &&& (#[trigger] self.ladder(ss)).wf(p1)
                    &&& ids_of_levels(p1, self.ladder(ss).queues()) == ids_of_levels(
                        self.pool@,
                        self.ladder(ss).queues(),
                    )
                    &&& forall|m: int|
                        0 <= m < LADDER_SIZE ==> #[trigger] sum_slots(p1, self.ladder(ss).queues()[m])
                            == sum_slots(self.pool@, self.ladder(ss).queues()[m])
                },
    {
        let p0 = self.pool@;
        assert forall|ss: Side|
            {
                &&& (#[trigger] self.ladder(ss)).wf(p1)
                &&& ids_of_levels(p1, self.ladder(ss).queues()) == ids_of_levels(
                    p0,
                    self.ladder(ss).queues(),
                )
                &&& forall|m: int|
                    0 <= m < LADDER_SIZE ==> #[trigger] sum_slots(p1, self.ladder(ss).queues()[m])
                        == sum_slots(p0, self.ladder(ss).queues()[m])
            } by {
            let lad = self.ladder(ss);
            lad.lemma_wf(p0);
            assert forall|x: u32| #[trigger] lad.slots().contains_key(x) implies {
                &&& p1.occupied(x as int)
                &&& p1.order(x as int).prev == p0.order(x as int).prev
                &&& p1.order(x as int).next == p0.order(x as int).next
            } by {
                let m = lad.slots()[x];
                let k = choose|k: int| 0 <= k < lad.queues()[m].len() && lad.queues()[m][k] == x;
                assert(p0.occupied(lad.queues()[m][k] as int));
                assert(p1.slots[x as int] == p0.slots[x as int]);
            }
            lad.lemma_frame(p0, p1);
            assert forall|m: int| 0 <= m < LADDER_SIZE implies {
                &&& #[trigger] sum_slots(p1, lad.queues()[m]) == sum_slots(p0, lad.queues()[m])
                &&& ids_of(p1, lad.queues()[m]) == ids_of(p0, lad.queues()[m])
            } by {
                let qm = lad.queues()[m];
                assert forall|j: int| 0 <= j < qm.len() implies {
                    &&& p1.order(#[trigger] qm[j] as int).remaining == p0.order(qm[j] as int).remaining
                    &&& id_at(p1, qm[j]) == id_at(p0, qm[j])
                } by {
                    assert(p0.occupied(qm[j] as int));
                    assert(p1.slots[qm[j] as int] == p0.slots[qm[j] as int]);
                }
                lemma_sum_frame(p0, p1, qm);
                lemma_ids_of_frame(p0, p1, qm);
            }
            assert forall|m: int| 0 <= m < lad.queues().len() implies #[trigger] ids_of_levels(
                p1,
                lad.queues(),
            )[m] == ids_of_levels(p0, lad.queues())[m] by {
                assert(sum_slots(p1, lad.queues()[m]) == sum_slots(p0, lad.queues()[m]));
            }
            assert(ids_of_levels(p1, lad.queues()) =~= ids_of_levels(p0, lad.queues()));
        }
    }

    /// Rests `order` in the book: it is cancelled if the pool is full and
    /// refused if its price is off the ladder.
    fn insert_resting(&mut self, order: Order, events: &mut Vec<Event>)
        requires
            old(self).wf(),
            order.prev is None,
            order.next is None,
            order.price.wf(),
            order.qty.wf(),
            order.remaining > 0,
            order.remaining <= order.qty.value(),
            !old(self)@.orders.contains_key(order.order_id.0),
            old(self)@.resting_count() < old(self)@.capacity ==> {
                &&& level_index(order.price.value(), old(self)@.reference.value()) <= i64::MAX
                &&& in_ladder(order.price.value(), old(self)@.reference.value()) ==> old(
                    self,
                )@.level_qty(order.side, old(self)@.level_of(order.price)) + order.remaining
                    <= i64::MAX
            },
        ensures
            final(self).wf(),
            old(self)@.resting_count() >= old(self)@.capacity ==> final(self)@ == old(self)@
                && final(events)@ == old(events)@.push(
                model::cancelled(order.order_id, order.subaccount, order.remaining),
            ),
            old(self)@.resting_count() < old(self)@.capacity && !in_ladder(
                order.price.value(),
                old(self)@.reference.value(),
            ) ==> final(self)@ == old(self)@ && final(events)@ == old(events)@.push(
                Event::Rejected { order_id: order.order_id, reason: RejectReason::PriceOutOfRange },
            ),
            old(self)@.resting_count() < old(self)@.capacity && in_ladder(
                order.price.value(),
                old(self)@.reference.value(),
            ) ==> final(self)@ == old(self)@.add_order(order.order_id.0, resting_of(order))
                && final(events)@ == old(events)@,
    {
        let ghost s0 = *self;
        let ghost p0 = self.pool@;
        let ghost id = order.order_id.0;
        let ghost side = order.side;
        let ghost reference = self.bids.reference_price().value();
        let ghost l = level_index(order.price.value(), reference);
        proof {
            self.pool.lemma_wf();
            self.lemma_view_wf();
            assert(self@.orders.dom() =~= self.id_index@.dom());
            assert(!self.id_index@.contains_key(id));
        }
        let handle = match self.pool.insert(order) {
            Some(h) => h,
            None => {
                events.push(
                    Event::Cancelled {
                        order_id: order.order_id,
                        subaccount: order.subaccount,
                        remaining_qty: Qty::new(order.remaining).unwrap(),
                    },
                );
                return ;
            },
        };
        let ghost i = handle.slot() as int;
        let ghost p1 = self.pool@;
        proof {
            assert(i == p0.free[0]);
            assert(!p0.occupied(i));
            s0.lemma_pool_extend(p1, i);
            s0.lemma_side(side);
            assert(s0.ladder(side).wf(p1));
            assert(!s0.ladder(side).slots().contains_key(i as u32)) by {
                s0.ladder(side).lemma_wf(p0);
                if s0.ladder(side).slots().contains_key(i as u32) {
                    let m = s0.ladder(side).slots()[i as u32];
                    let k = choose|k: int| 0 <= k < s0.ladder(side).queues()[m].len() && s0.ladder(side).queues()[m][k] == i as u32;
                    assert(p0.occupied(s0.ladder(side).queues()[m][k] as int));
                }
            }
            if in_ladder(order.price.value(), reference) {
                assert(s0@.level_qty(side, l) == s0.ladder(side).totals()[l]);
            }
        }
        let result = match order.side {
            Side::Bid => self.bids.add_order(handle, order.price, order.remaining, &mut self.pool),
            Side::Ask => self.asks.add_order(handle, order.price, order.remaining, &mut self.pool),
        };
        if result.is_err() {
            let _ = self.pool.remove(handle);
            events.push(
                Event::Rejected { order_id: order.order_id, reason: RejectReason::PriceOutOfRange },
            );
            proof {
                let p3 = self.pool@;
                assert(p3.free =~= p0.free);
                s0.lemma_pool_extend(p3, i);
                assert(self.bids == s0.bids);
                assert(self.asks == s0.asks);
                let idx = self.id_index@;
                assert forall|x: u64| #[trigger] idx.contains_key(x) implies p3.valid(idx[x]) && id_at(
                    p3,
                    idx[x].slot(),
                ) == x by {
                    assert(p0.valid(idx[x]));
                    assert(idx[x].slot() != i);
                }
                assert forall|j: int| #[trigger] p3.occupied(j) implies idx.contains_key(
                    p3.order(j).order_id.0,
                ) && idx[p3.order(j).order_id.0] == p3.handle_of(j) by {
                    assert(p0.occupied(j));
                }
                assert(self.index_wf());
                assert forall|j: int| #[trigger] p3.occupied(j) implies {
                    let o = p3.order(j);
                    &&& o.price.wf()
                    &&& o.qty.wf()
                    &&& o.remaining > 0
                    &&& in_ladder(o.price.value(), reference)
                    &&& self.ladder(o.side).slots().contains_key(j as u32)
                    &&& self.ladder(o.side).slots()[j as u32] == level_index(o.price.value(), reference)
                } by {
                    assert(p0.occupied(j));
                }
                assert forall|x: u32| #[trigger] self.bids.slots().contains_key(x) implies p3.order(
                    x as int,
                ).side == Side::Bid by {
                    s0.bids.lemma_wf(p0);
                    let m = s0.bids.slots()[x];
                    let k = choose|k: int| 0 <= k < s0.bids.queues()[m].len() && s0.bids.queues()[m][k] == x;
                    assert(p0.occupied(s0.bids.queues()[m][k] as int));
                }
                assert forall|x: u32| #[trigger] self.asks.slots().contains_key(x) implies p3.order(
                    x as int,
                ).side == Side::Ask by {
                    s0.asks.lemma_wf(p0);
                    let m = s0.asks.slots()[x];
                    let k = choose|k: int| 0 <= k < s0.asks.queues()[m].len() && s0.asks.queues()[m][k] == x;
                    assert(p0.occupied(s0.asks.queues()[m][k] as int));
                }
                assert(self.placement_wf());
                assert(sum_slots(p3, self.ladder(Side::Bid).queues()[0]) == sum_slots(p0, s0.ladder(Side::Bid).queues()[0]));
                assert forall|m: int| 0 <= m < LADDER_SIZE implies #[trigger] self.bids.totals()[m]
                    == sum_slots(p3, self.bids.queues()[m]) by {
                    assert(sum_slots(p3, self.ladder(Side::Bid).queues()[m]) == sum_slots(p0, s0.ladder(Side::Bid).queues()[m]));
                }
                assert forall|m: int| 0 <= m < LADDER_SIZE implies #[trigger] self.asks.totals()[m]
                    == sum_slots(p3, self.asks.queues()[m]) by {
                    assert(sum_slots(p3, self.ladder(Side::Ask).queues()[m]) == sum_slots(p0, s0.ladder(Side::Ask).queues()[m]));
                }
                assert(self.totals_wf());
                assert(ids_of_levels(p3, self.ladder(Side::Bid).queues()) == ids_of_levels(p0, s0.ladder(Side::Bid).queues()));
                assert(ids_of_levels(p3, self.ladder(Side::Ask).queues()) == ids_of_levels(p0, s0.ladder(Side::Ask).queues()));
                assert(self@.orders =~= s0@.orders) by {
                    assert forall|x: u64| #[trigger] self@.orders.contains_key(x) implies self@.orders[x]
                        == s0@.orders[x] by {
                        assert(p0.valid(idx[x]));
                        assert(idx[x].slot() != i);
                    }
                }
            }
            return ;
        }
        self.id_index.insert(order.order_id.0, handle);
        proof {
            let p2 = self.pool@;
            let oside = opposite(side);
            let lad = self.ladder(side);
            let other = self.ladder(oside);
            let q = s0.ladder(side).queues()[l];
            let g = p1.slots[i].generation;
            assert(handle == OrderHandle::make(i as u32, g));
            assert(p1.order(i) == order);
            assert(other == s0.ladder(oside));
            assert(in_ladder(order.price.value(), reference));
            // slots other than i keep their data; the other ladder's also their links
            assert forall|j: int| 0 <= j < p0.slots.len() && j != i implies {
                &&& #[trigger] p2.slots[j].generation == p0.slots[j].generation
                &&& (p2.slots[j].order is Some <==> p0.slots[j].order is Some)
                &&& p0.slots[j].order is Some ==> same_but_links(p0.order(j), p2.order(j))
                &&& !q.to_set().contains(j as u32) ==> p2.slots[j] == p0.slots[j]
            } by {
                assert(p1.slots[j] == p0.slots[j]);
            }
            assert(p2.slots[i].generation == g);
            assert(same_but_links(order, p2.order(i)));
            assert forall|x: u32| #[trigger] other.slots().contains_key(x) implies {
                &&& p2.occupied(x as int)
                &&& p2.order(x as int).prev == p0.order(x as int).prev
                &&& p2.order(x as int).next == p0.order(x as int).next
            } by {
                other.lemma_wf(p0);
                let m = other.slots()[x];
                let kk = choose|kk: int| 0 <= kk < other.queues()[m].len() && other.queues()[m][kk] == x;
                assert(p0.occupied(other.queues()[m][kk] as int));
                assert(p0.order(x as int).side == oside);
                assert(x as int != i);
                assert(!q.to_set().contains(x)) by {
                    if q.contains(x) {
                        let jj = choose|jj: int| 0 <= jj < q.len() && q[jj] == x;
                        s0.ladder(side).lemma_wf(p0);
                        assert(s0.ladder(side).slots().contains_key(q[jj]));
                    }
                }
            }
            other.lemma_frame(p0, p2);
            let idx0 = s0.id_index@;
            let idx = self.id_index@;
            assert(idx == idx0.insert(id, handle));
            assert(idx.dom() =~= idx0.dom().insert(id));
            assert forall|x: u64| #[trigger] idx.contains_key(x) implies p2.valid(idx[x]) && id_at(
                p2,
                idx[x].slot(),
            ) == x by {
                if x != id {
                    assert(p0.valid(idx0[x]));
                    assert(idx0[x].slot() as int != i);
                    assert(same_but_links(p0.order(idx0[x].slot() as int), p2.order(idx0[x].slot() as int)));
                }
            }
            assert forall|j: int| #[trigger] p2.occupied(j) implies idx.contains_key(
                p2.order(j).order_id.0,
            ) && idx[p2.order(j).order_id.0] == p2.handle_of(j) by {
                if j != i {
                    assert(p0.occupied(j));
                    assert(same_but_links(p0.order(j), p2.order(j)));
                    assert(idx0.contains_key(p0.order(j).order_id.0));
                    assert(p0.order(j).order_id.0 != id);
                }
            }
            assert(self.index_wf());
            assert forall|j: int| #[trigger] p2.occupied(j) implies {
                let o = p2.order(j);
                &&& o.price.wf()
                &&& o.qty.wf()
                &&& o.remaining > 0
                &&& o.remaining <= o.qty.value()
                &&& in_ladder(o.price.value(), reference)
                &&& self.ladder(o.side).slots().contains_key(j as u32)
                &&& self.ladder(o.side).slots()[j as u32] == level_index(o.price.value(), reference)
            } by {
                if j != i {
                    assert(p0.occupied(j));
                    assert(same_but_links(p0.order(j), p2.order(j)));
                    assert(s0.ladder(p0.order(j).side).slots().contains_key(j as u32));
                    assert(j as u32 != i as u32) by {
                        p0.lemma_occupied_bound(j);
                    }
                }
            }
            assert forall|x: u32| #[trigger] self.bids.slots().contains_key(x) implies p2.order(
                x as int,
            ).side == Side::Bid by {
                if x as int == i && side != Side::Bid {
                    assert(s0.bids.slots().contains_key(x));
                    s0.bids.lemma_wf(p0);
                    let m = s0.bids.slots()[x];
                    let k = choose|k: int| 0 <= k < s0.bids.queues()[m].len() && s0.bids.queues()[m][k] == x;
                    assert(p0.occupied(s0.bids.queues()[m][k] as int));
                }
                if x as int != i {
                    assert(s0.bids.slots().contains_key(x));
                    s0.bids.lemma_wf(p0);
                    let m = s0.bids.slots()[x];
                    let k = choose|k: int| 0 <= k < s0.bids.queues()[m].len() && s0.bids.queues()[m][k] == x;
                    assert(p0.occupied(s0.bids.queues()[m][k] as int));
                    assert(same_but_links(p0.order(x as int), p2.order(x as int)));
                }
            }
            assert forall|x: u32| #[trigger] self.asks.slots().contains_key(x) implies p2.order(
                x as int,
            ).side == Side::Ask by {
                if x as int == i && side != Side::Ask {
                    assert(s0.asks.slots().contains_key(x));
                    s0.asks.lemma_wf(p0);
                    let m = s0.asks.slots()[x];
                    let k = choose|k: int| 0 <= k < s0.asks.queues()[m].len() && s0.asks.queues()[m][k] == x;
                    assert(p0.occupied(s0.asks.queues()[m][k] as int));
                }
                if x as int != i {
                    assert(s0.asks.slots().contains_key(x));
                    s0.asks.lemma_wf(p0);
                    let m = s0.asks.slots()[x];
                    let k = choose|k: int| 0 <= k < s0.asks.queues()[m].len() && s0.asks.queues()[m][k] == x;
                    assert(p0.occupied(s0.asks.queues()[m][k] as int));
                    assert(same_but_links(p0.order(x as int), p2.order(x as int)));
                }
            }
            assert(self.placement_wf());
            // sums and ids, through the pool right after the insertion
            assert forall|x: u32| #[trigger] lad.slots().contains_key(x) implies p1.occupied(x as int)
                && same_but_links(p1.order(x as int), p2.order(x as int)) by {
                lad.lemma_wf(p2);
                let m = lad.slots()[x];
                let k = choose|k: int| 0 <= k < lad.queues()[m].len() && lad.queues()[m][k] == x;
                assert(p2.occupied(lad.queues()[m][k] as int));
                if x as int != i {
                    assert(p0.occupied(x as int));
                }
            }
            self.lemma_levels_after(s0, side, l, q.push(i as u32), p1);
            assert forall|x: u32| #[trigger] other.slots().contains_key(x) implies p1.occupied(x as int)
                && same_but_links(p1.order(x as int), p2.order(x as int)) by {
                other.lemma_wf(p0);
                let m = other.slots()[x];
                let k = choose|k: int| 0 <= k < other.queues()[m].len() && other.queues()[m][k] == x;
                assert(p0.occupied(other.queues()[m][k] as int));
            }
            self.lemma_levels_after(s0, oside, -1, seq![], p1);
            lemma_sum_push(p1, q, i as u32);
            lemma_ids_of_push(p1, q, i as u32);
            s0.ladder(side).lemma_wf(p0);
            assert(sum_slots(p1, q) == sum_slots(p0, q));
            assert(ids_of(p1, q) == ids_of(p0, q)) by {
                assert(ids_of_levels(p1, s0.ladder(side).queues())[l] == ids_of_levels(p0, s0.ladder(side).queues())[l]);
            }
            assert forall|m: int| 0 <= m < LADDER_SIZE implies #[trigger] self.bids.totals()[m]
                == sum_slots(p2, self.bids.queues()[m]) by {
                if side == Side::Bid && m == l {
                } else {
                    assert(sum_slots(p1, s0.bids.queues()[m]) == sum_slots(p0, s0.bids.queues()[m]));
                    assert(sum_slots(p2, self.ladder(Side::Bid).queues()[m]) == sum_slots(p1, s0.ladder(Side::Bid).queues()[m]));
                }
            }
            assert forall|m: int| 0 <= m < LADDER_SIZE implies #[trigger] self.asks.totals()[m]
                == sum_slots(p2, self.asks.queues()[m]) by {
                if side == Side::Ask && m == l {
                } else {
                    assert(sum_slots(p1, s0.asks.queues()[m]) == sum_slots(p0, s0.asks.queues()[m]));
                    assert(sum_slots(p2, self.ladder(Side::Ask).queues()[m]) == sum_slots(p1, s0.ladder(Side::Ask).queues()[m]));
                }
            }
            assert(self.totals_wf());
            s0.lemma_side(side);
            s0.lemma_side(oside);
            let target = s0@.add_order(id, resting_of(order));
            assert(self@.levels(side) == target.levels(side));
            assert(self@.levels(oside) == target.levels(oside));
            assert(self@.orders =~= target.orders) by {
                assert forall|x: u64| #[trigger] self@.orders.contains_key(x) implies self@.orders[x]
                    == target.orders[x] by {
                    if x != id {
                        assert(p0.valid(idx0[x]));
                        assert(idx0[x].slot() as int != i);
                        assert(same_but_links(p0.order(idx0[x].slot() as int), p2.order(idx0[x].slot() as int)));
                    }
                }
            }
            assert(self@.bids == target.bids);
            assert(self@.asks == target.asks);
        }
    }

    /// Matches a buy taker against the asks.
    pub(crate) fn match_buy(
        &mut self,
        taker_id: OrderId,
        taker_subaccount: SubaccountId,
        taker_price: Price,
        taker_qty: Qty,
        stp: SelfTradeMode,
        events: &mut Vec<Event>,
    ) -> (r: MatchResult)
        requires
            old(self).wf(),
            taker_qty.wf(),
        ensures
            final(self).wf(),
            ({
                let m = model::match_taker(
                    old(self)@,
                    Taker {
                        order_id: taker_id,
                        subaccount: taker_subaccount,
                        side: Side::Bid,
                        price: taker_price,
                        stp,
                    },
                    taker_qty.value(),
                );
                &&& final(self)@ == m.book
                &&& final(events)@ == old(events)@ + m.events
                &&& r.remaining_qty == m.remaining
                &&& r.stp_triggered == m.stp
            }),
    {
        self.match_against(Side::Bid, taker_id, taker_subaccount, taker_price, taker_qty, stp, events)
    }

    /// Matches a sell taker against the bids.
    pub(crate) fn match_sell(
        &mut self,
        taker_id: OrderId,
        taker_subaccount: SubaccountId,
        taker_price: Price,
        taker_qty: Qty,
        stp: SelfTradeMode,
        events: &mut Vec<Event>,
    ) -> (r: MatchResult)
        requires
            old(self).wf(),
            taker_qty.wf(),
        ensures
            final(self).wf(),
            ({
                let m = model::match_taker(
                    old(self)@,
                    Taker {
                        order_id: taker_id,
                        subaccount: taker_subaccount,
                        side: Side::Ask,
                        price: taker_price,
                        stp,
                    },
                    taker_qty.value(),
                );
                &&& final(self)@ == m.book
                &&& final(events)@ == old(events)@ + m.events
                &&& r.remaining_qty == m.remaining
                &&& r.stp_triggered == m.stp
            }),
    {
        self.match_against(Side::Ask, taker_id, taker_subaccount, taker_price, taker_qty, stp, events)
    }

    fn place(
        &mut self,
        order_id: OrderId,
        subaccount: SubaccountId,
        side: Side,
        price: Price,
        qty: Qty,
        stp: SelfTradeMode,
        events: &mut Vec<Event>,
    )
        requires
            old(self).wf(),
            model::apply_in_domain(
                old(self)@,
                Op::Place { order_id, subaccount, side, price, qty, stp },
            ),
        ensures
            final(self).wf(),
            ({
                let (v, e) = model::place(old(self)@, order_id, subaccount, side, price, qty, stp);
                final(self)@ == v && final(events)@ == old(events)@ + e
            }),
    {
        let ghost v0 = self@;
        let ghost e0 = events@;
        proof {
            self.lemma_view_wf();
            assert(self@.orders.dom() =~= self.id_index@.dom());
        }
        if self.id_index.contains_key(&order_id.0) {
            events.push(Event::Rejected { order_id, reason: RejectReason::DuplicateOrderId });
            return ;
        }
        events.push(Event::Accepted { order_id, subaccount, side, price, qty });
        let ghost t = Taker { order_id, subaccount, side, price, stp };
        let match_result = match side {
            Side::Bid => self.match_buy(order_id, subaccount, price, qty, stp, events),
            Side::Ask => self.match_sell(order_id, subaccount, price, qty, stp, events),
        };
        let ghost m = model::match_taker(v0, t, qty.value());
        proof {
            model::lemma_match(v0, t, qty.value());
            assert(events@ =~= e0 + seq![Event::Accepted { order_id, subaccount, side, price, qty }] + m.events);
        }
        if match_result.stp_triggered || match_result.remaining_qty == 0 {
            proof {
                assert(events@ =~= e0 + (seq![Event::Accepted { order_id, subaccount, side, price, qty }] + m.events));
            }
            return ;
        }
        let mut order = Order::new(order_id, subaccount, side, price, qty);
        order.remaining = match_result.remaining_qty;
        proof {
            let l = v0.level_of(price);
            if in_ladder(price.value(), v0.reference.value()) && m.book.resting_count() < m.book.capacity {
                model::lemma_match_level_qty(v0, t, qty.value(), l);
            }
            assert(!m.book.orders.contains_key(order_id.0));
        }
        self.insert_resting(order, events);
        proof {
            assert(resting_of(order) == Resting { subaccount, side, price, qty, remaining: m.remaining });
        }
    }

    fn cancel(&mut self, order_id: OrderId, subaccount: SubaccountId, events: &mut Vec<Event>)
        requires
            old(self).wf(),
        ensures
            final(self).wf(),
            ({
                let (v, e) = model::cancel(old(self)@, order_id, subaccount);
                final(self)@ == v && final(events)@ == old(events)@ + e
            }),
    {
        proof {
            assert(self@.orders.dom() =~= self.id_index@.dom());
        }
        let handle = match self.id_index.get(&order_id.0) {
            Some(h) => *h,
            None => {
                events.push(Event::Rejected { order_id, reason: RejectReason::OrderNotFound });
                return ;
            },
        };
        let order = match self.pool.get(handle) {
            Some(o) => *o,
            None => {
                events.push(Event::Rejected { order_id, reason: RejectReason::OrderNotFound });
                proof {
                    assert(false);
                }
                return ;
            },
        };
        let ghost v0 = self@;
        proof {
            assert(self.pool@.occupied(handle.slot() as int));
            assert(order.remaining > 0);
            assert(v0.orders.contains_key(order_id.0));
            assert(v0.orders[order_id.0] == resting_of(order));
            assert(order.order_id == order_id);
        }
        if order.subaccount != subaccount {
            events.push(Event::Rejected { order_id, reason: RejectReason::NotOwner });
            return ;
        }
        self.remove_resting(handle, order);
        events.push(
            Event::Cancelled {
                order_id,
                subaccount,
                remaining_qty: Qty::new(order.remaining).unwrap(),
            },
        );
    }

    /// Applies one operation, appending what it reports to `events`.
    pub fn apply(&mut self, op: Op, events: &mut Vec<Event>)
        requires
            old(self).wf(),
            model::apply_in_domain(old(self)@, op),
        ensures
            final(self).wf(),
            ({
                let (v, e) = model::apply(old(self)@, op);
                final(self)@ == v && final(events)@ == old(events)@ + e
            }),
    {
        match op {
            Op::Place { order_id, subaccount, side, price, qty, stp } => self.place(
                order_id,
                subaccount,
                side,
                price,
                qty,
                stp,
                events,
            ),
            Op::Cancel { order_id, subaccount } => self.cancel(order_id, subaccount, events),
        }
    }

    /// The bid ladder.
    pub fn bids(&self) -> (r: &PriceLadder)
        requires
            self.wf(),
        ensures
            exists|pool: PoolView| r.wf(pool),
            r.side_of() == Side::Bid,
            r.reference_price() == self@.reference,
            r.best_index() == self@.best_level(Side::Bid),
            forall|l: int| 0 <= l < LADDER_SIZE ==> #[trigger] r.totals()[l] == self@.level_qty(Side::Bid, l),
            forall|l: int| 0 <= l < LADDER_SIZE ==> #[trigger] r.queues()[l].len() == self@.bids[l].len(),
    {
        proof {
            self.lemma_side(Side::Bid);
            assert(self.bids.wf(self.pool@));
            self.bids.lemma_wf(self.pool@);
        }
        &self.bids
    }

    /// The ask ladder.
    pub fn asks(&self) -> (r: &PriceLadder)
        requires
            self.wf(),
        ensures
            exists|pool: PoolView| r.wf(pool),
            r.side_of() == Side::Ask,
            r.reference_price() == self@.reference,
            r.best_index() == self@.best_level(Side::Ask),
            forall|l: int| 0 <= l < LADDER_SIZE ==> #[trigger] r.totals()[l] == self@.level_qty(Side::Ask, l),
            forall|l: int| 0 <= l < LADDER_SIZE ==> #[trigger] r.queues()[l].len() == self@.asks[l].len(),
    {
        proof {
            self.lemma_side(Side::Ask);
            assert(self.asks.wf(self.pool@));
            self.asks.lemma_wf(self.pool@);
        }
        &self.asks
    }
}

} // verus!

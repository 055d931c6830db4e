//! The abstract order book: what the matching engine is, stated over
//! sequences and maps, and what one operation does to it.
use crate::events::{Event, RejectReason};
use crate::ladder::{best_of, in_ladder, level_index, level_price, LADDER_SIZE};
use crate::ops::Op;
use crate::types::{OrderId, Price, Qty, SelfTradeMode, Side, SubaccountId};
use vstd::prelude::*;

verus! {

broadcast use crate::types::group_types;

/// An order resting in the book, as the book sees it.
pub struct Resting {
    pub subaccount: SubaccountId,
    pub side: Side,
    pub price: Price,
    pub qty: Qty,
    pub remaining: i64,
}

/// The order that is matching against the book.
pub struct Taker {
    pub order_id: OrderId,
    pub subaccount: SubaccountId,
    pub side: Side,
    pub price: Price,
    pub stp: SelfTradeMode,
}

/// The state of the book: for each side, the queue of order ids at each
/// ladder level (oldest first), and the resting orders by id.
pub struct BookView {
    pub reference: Price,
    pub capacity: nat,
    pub bids: Seq<Seq<u64>>,
    pub asks: Seq<Seq<u64>>,
    pub orders: Map<u64, Resting>,
}

/// What matching a taker against the book leaves behind.
pub struct MatchOutcome {
    pub book: BookView,
    pub events: Seq<Event>,
    pub remaining: i64,
    pub stp: bool,
}

pub open spec fn opposite(side: Side) -> Side {
    match side {
        Side::Bid => Side::Ask,
        Side::Ask => Side::Bid,
    }
}

/// The sum of the remaining quantities of the orders `ids`.
pub open spec fn sum_remaining(orders: Map<u64, Resting>, ids: Seq<u64>) -> int
    decreases ids.len(),
{
    if ids.len() == 0 {
        0
    } else {
        sum_remaining(orders, ids.drop_last()) + orders[ids.last()].remaining
    }
}

impl BookView {
    pub open spec fn levels(self, side: Side) -> Seq<Seq<u64>> {
        match side {
            Side::Bid => self.bids,
            Side::Ask => self.asks,
        }
    }

    pub open spec fn with_levels(self, side: Side, levels: Seq<Seq<u64>>) -> BookView {
        match side {
            Side::Bid => BookView { bids: levels, ..self },
            Side::Ask => BookView { asks: levels, ..self },
        }
    }

    /// The ladder level of `price`.
    pub open spec fn level_of(self, price: Price) -> int {
        level_index(price.value(), self.reference.value())
    }

    /// The book without order `id`.
    pub open spec fn remove_order(self, id: u64) -> BookView {
        let r = self.orders[id];
        let l = self.level_of(r.price);
        let q = self.levels(r.side)[l];
        BookView {
            orders: self.orders.remove(id),
            ..self.with_levels(r.side, self.levels(r.side).update(l, q.remove(q.index_of(id))))
        }
    }

    /// The book where order `id` has `by` less remaining.
    pub open spec fn reduce_order(self, id: u64, by: i64) -> BookView {
        let r = self.orders[id];
        BookView {
            orders: self.orders.insert(id, Resting { remaining: (r.remaining - by) as i64, ..r }),
            ..self
        }
    }

    /// The book with order `id` queued last at its price level.
    pub open spec fn add_order(self, id: u64, r: Resting) -> BookView {
        let l = self.level_of(r.price);
        BookView {
            orders: self.orders.insert(id, r),
            ..self.with_levels(r.side, self.levels(r.side).update(l, self.levels(r.side)[l].push(id)))
        }
    }

    /// The best non-empty level of `side`.
    pub open spec fn best_level(self, side: Side) -> Option<int> {
        best_of(side, self.levels(side))
    }

    /// The price of the best level of `side`.
    pub open spec fn best_price(self, side: Side) -> Option<int> {
        match self.best_level(side) {
            Some(l) => Some(level_price(l, self.reference.value())),
            None => None,
        }
    }

    /// The total remaining quantity at level `l` of `side`.
    pub open spec fn level_qty(self, side: Side, l: int) -> int {
        sum_remaining(self.orders, self.levels(side)[l])
    }

    /// The total remaining quantity at the best level of `side`, or zero.
    pub open spec fn best_qty(self, side: Side) -> int {
        match self.best_level(side) {
            Some(l) => self.level_qty(side, l),
            None => 0,
        }
    }

    pub open spec fn resting_count(self) -> nat {
        self.orders.dom().len()
    }

    /// Every queued id is a resting order of that side at that level, once.
    pub open spec fn levels_wf(self, side: Side) -> bool {
        let levels = self.levels(side);
        &&& levels.len() == LADDER_SIZE
        &&& forall|l: int| 0 <= l < LADDER_SIZE ==> (#[trigger] levels[l]).no_duplicates()
        &&& forall|l: int, k: int|
            0 <= l < LADDER_SIZE && 0 <= k < levels[l].len() ==> {
                &&& self.orders.contains_key(#[trigger] levels[l][k])
                &&& self.orders[levels[l][k]].side == side
                &&& self.level_of(self.orders[levels[l][k]].price) == l
            }
    }

    pub open spec fn wf(self) -> bool {
        &&& self.reference.wf()
        &&& self.levels_wf(Side::Bid)
        &&& self.levels_wf(Side::Ask)
        &&& self.orders.dom().finite()
        &&& self.resting_count() <= self.capacity
        &&& forall|id: u64|
            #[trigger] self.orders.contains_key(id) ==> {
                let r = self.orders[id];
                &&& r.price.wf()
                &&& r.qty.wf()
                &&& r.remaining > 0
                &&& r.remaining <= r.qty.value()
                &&& in_ladder(r.price.value(), self.reference.value())
                &&& self.levels(r.side)[self.level_of(r.price)].contains(id)
            }
    }
}

/// A taker on `side` with limit `limit` stops at a level priced `price`.
pub open spec fn stops_before(side: Side, price: int, limit: i64) -> bool {
    match side {
        Side::Bid => price > limit,
        Side::Ask => price < limit,
    }
}

pub open spec fn min(a: i64, b: i64) -> i64 {
    if a <= b {
        a
    } else {
        b
    }
}

pub open spec fn cancelled(order_id: OrderId, subaccount: SubaccountId, remaining: i64) -> Event {
    Event::Cancelled { order_id, subaccount, remaining_qty: Qty::from_value(remaining) }
}

/// Matching stopped with `remaining` left and nothing more reported.
pub open spec fn stopped(v: BookView, remaining: i64) -> MatchOutcome {
    MatchOutcome { book: v, events: Seq::empty(), remaining, stp: false }
}

/// Price-time priority matching of a taker with `remaining` units against
/// the opposite side: the head of the best level trades first, at the
/// maker's price, until the taker is filled, the book is exhausted, or the
/// best level no longer crosses the taker's limit. A maker of the taker's
/// own subaccount triggers self-trade prevention instead of a trade.
pub open spec fn match_taker(v: BookView, t: Taker, remaining: i64) -> MatchOutcome
    decreases (if remaining > 0 {
        remaining as int
    } else {
        0
    }) + v.orders.dom().len(),
{
    let opp = opposite(t.side);
    if remaining <= 0 || !v.orders.dom().finite() {
        stopped(v, remaining)
    } else {
        match v.best_level(opp) {
            None => stopped(v, remaining),
            Some(l) => {
                if stops_before(t.side, level_price(l, v.reference.value()), t.price.value()) {
                    stopped(v, remaining)
                } else {
                    let id = v.levels(opp)[l][0];
                    if !v.orders.contains_key(id) || v.orders[id].remaining <= 0 {
                        stopped(v, remaining)
                    } else {
                        let maker = v.orders[id];
                        let maker_cancel = cancelled(OrderId(id), maker.subaccount, maker.remaining);
                        let taker_cancel = cancelled(t.order_id, t.subaccount, remaining);
                        proof {
                            assert(v.orders.remove(id).dom() =~= v.orders.dom().remove(id));
                            assert(v.orders.insert(id, maker).dom() =~= v.orders.dom());
                        }
                        if maker.subaccount == t.subaccount {
                            match t.stp {
                                SelfTradeMode::ExpireTaker => MatchOutcome {
                                    book: v,
                                    events: seq![taker_cancel],
                                    remaining: 0,
                                    stp: true,
                                },
                                SelfTradeMode::ExpireMaker => {
                                    let rest = match_taker(v.remove_order(id), t, remaining);
                                    MatchOutcome { events: seq![maker_cancel] + rest.events, ..rest }
                                },
                                SelfTradeMode::ExpireBoth => MatchOutcome {
                                    book: v.remove_order(id),
                                    events: seq![maker_cancel, taker_cancel],
                                    remaining: 0,
                                    stp: true,
                                },
                            }
                        } else {
                            let fill = min(remaining, maker.remaining);
                            let trade = Event::Trade {
                                maker_order_id: OrderId(id),
                                taker_order_id: t.order_id,
                                maker_subaccount: maker.subaccount,
                                taker_subaccount: t.subaccount,
                                price: maker.price,
                                qty: Qty::from_value(fill),
                            };
                            let next = if fill == maker.remaining {
                                v.remove_order(id)
                            } else {
                                v.reduce_order(id, fill)
                            };
                            let rest = match_taker(next, t, (remaining - fill) as i64);
                            MatchOutcome { events: seq![trade] + rest.events, ..rest }
                        }
                    }
                }
            },
        }
    }
}

/// Placing a limit order: refused if its id rests already; otherwise
/// accepted, matched, and its remainder queued at its price, unless
/// self-trade prevention expired it, the pool of resting orders is full
/// (the remainder is cancelled) or the price is off the ladder (refused).
pub open spec fn place(
    v: BookView,
    order_id: OrderId,
    subaccount: SubaccountId,
    side: Side,
    price: Price,
    qty: Qty,
    stp: SelfTradeMode,
) -> (BookView, Seq<Event>) {
    if v.orders.contains_key(order_id.0) {
        (v, seq![Event::Rejected { order_id, reason: RejectReason::DuplicateOrderId }])
    } else {
        let t = Taker { order_id, subaccount, side, price, stp };
        let m = match_taker(v, t, qty.value());
        let events = seq![Event::Accepted { order_id, subaccount, side, price, qty }] + m.events;
        if m.stp || m.remaining == 0 {
            (m.book, events)
        } else if m.book.resting_count() >= m.book.capacity {
            (m.book, events.push(cancelled(order_id, subaccount, m.remaining)))
        } else if !in_ladder(price.value(), v.reference.value()) {
            (m.book, events.push(Event::Rejected { order_id, reason: RejectReason::PriceOutOfRange }))
        } else {
            (
                m.book.add_order(
                    order_id.0,
                    Resting { subaccount, side, price, qty, remaining: m.remaining },
                ),
                events,
            )
        }
    }
}

/// A placed order reaches the ladder: it is new, and after matching a
/// remainder is left that self-trade prevention did not expire, with room in
/// the pool.
pub open spec fn place_reaches_ladder(
    v: BookView,
    order_id: OrderId,
    subaccount: SubaccountId,
    side: Side,
    price: Price,
    qty: Qty,
    stp: SelfTradeMode,
) -> bool {
    let m = match_taker(v, Taker { order_id, subaccount, side, price, stp }, qty.value());
    &&& !v.orders.contains_key(order_id.0)
    &&& !m.stp
    &&& m.remaining != 0
    &&& m.book.resting_count() < m.book.capacity
}

/// The prices and quantities of `op` are positive, as `Price::new` and
/// `Qty::new` make them.
pub open spec fn op_wf(op: Op) -> bool {
    match op {
        Op::Place { price, qty, .. } => price.wf() && qty.wf(),
        Op::Cancel { .. } => true,
    }
}

/// The operations the book handles without arithmetic overflow: prices and
/// quantities are positive, and an order that reaches the ladder has a
/// level index, and a level total with its remainder added, that fit in 64
/// bits.
pub open spec fn apply_in_domain(v: BookView, op: Op) -> bool {
    match op {
        Op::Place { order_id, subaccount, side, price, qty, stp } => {
            &&& op_wf(op)
            &&& place_reaches_ladder(v, order_id, subaccount, side, price, qty, stp) ==> {
                &&& level_index(price.value(), v.reference.value()) <= i64::MAX
                &&& in_ladder(price.value(), v.reference.value()) ==> v.level_qty(
                    side,
                    v.level_of(price),
                ) + match_taker(
                    v,
                    Taker { order_id, subaccount, side, price, stp },
                    qty.value(),
                ).remaining <= i64::MAX
            }
        },
        Op::Cancel { .. } => true,
    }
}

/// Cancelling an order: refused unless it rests and belongs to `subaccount`;
/// otherwise it leaves the book with its remaining quantity reported.
pub open spec fn cancel(v: BookView, order_id: OrderId, subaccount: SubaccountId) -> (
    BookView,
    Seq<Event>,
) {
    if !v.orders.contains_key(order_id.0) {
        (v, seq![Event::Rejected { order_id, reason: RejectReason::OrderNotFound }])
    } else if v.orders[order_id.0].subaccount != subaccount {
        (v, seq![Event::Rejected { order_id, reason: RejectReason::NotOwner }])
    } else {
        (
            v.remove_order(order_id.0),
            seq![cancelled(order_id, subaccount, v.orders[order_id.0].remaining)],
        )
    }
}

/// The book after `op`, and what it reports.
pub open spec fn apply(v: BookView, op: Op) -> (BookView, Seq<Event>) {
    match op {
        Op::Place { order_id, subaccount, side, price, qty, stp } => place(
            v,
            order_id,
            subaccount,
            side,
            price,
            qty,
            stp,
        ),
        Op::Cancel { order_id, subaccount } => cancel(v, order_id, subaccount),
    }
}

/// Removing one element of a sequence without duplicates keeps the others.
pub proof fn lemma_remove_at<A>(q: Seq<A>, k: int)
    requires
        q.no_duplicates(),
        0 <= k < q.len(),
    ensures
        q.remove(k).no_duplicates(),
        q.remove(k).len() == q.len() - 1,
        forall|x: A| q.remove(k).contains(x) <==> q.contains(x) && x != q[k],
{
    let r = q.remove(k);
    assert forall|j: int| 0 <= j < r.len() implies #[trigger] r[j] == if j < k {
        q[j]
    } else {
        q[j + 1]
    } by {}
    assert forall|a: int, b: int| 0 <= a < r.len() && 0 <= b < r.len() && a != b implies r[a]
        != r[b] by {
        let a1 = if a < k {
            a
        } else {
            a + 1
        };
        let b1 = if b < k {
            b
        } else {
            b + 1
        };
        assert(q[a1] != q[b1]);
    }
    assert forall|x: A| r.contains(x) <==> q.contains(x) && x != q[k] by {
        if r.contains(x) {
            let j = choose|j: int| 0 <= j < r.len() && r[j] == x;
            let j1 = if j < k {
                j
            } else {
                j + 1
            };
            assert(q[j1] == x);
            assert(j1 != k);
        }
        if q.contains(x) && x != q[k] {
            let j = choose|j: int| 0 <= j < q.len() && q[j] == x;
            assert(j != k);
            let j1 = if j < k {
                j
            } else {
                j - 1
            };
            assert(r[j1] == x);
        }
    }
}

impl BookView {
    pub proof fn lemma_remove_order(self, id: u64)
        requires
            self.wf(),
            self.orders.contains_key(id),
        ensures
            self.remove_order(id).wf(),
            self.remove_order(id).levels(opposite(self.orders[id].side)) == self.levels(
                opposite(self.orders[id].side),
            ),
            self.remove_order(id).resting_count() == self.resting_count() - 1,
            self.remove_order(id).reference == self.reference,
            self.remove_order(id).capacity == self.capacity,
            self.remove_order(id).orders == self.orders.remove(id),
    {
        let r = self.orders[id];
        let side = r.side;
        let l = self.level_of(r.price);
        let q = self.levels(side)[l];
        let kq = q.index_of(id);
        let w = self.remove_order(id);
        assert(q.contains(id));
        assert(0 <= kq < q.len() && q[kq] == id);
        lemma_remove_at(q, kq);
        assert(w.orders.dom() =~= self.orders.dom().remove(id));
        assert forall|ss: Side| #[trigger] w.levels_wf(ss) by {
            let lv = w.levels(ss);
            assert forall|m: int| 0 <= m < LADDER_SIZE implies (#[trigger] lv[m]).no_duplicates() by {
                assert(self.levels_wf(ss));
            }
            assert forall|m: int, j: int| 0 <= m < LADDER_SIZE && 0 <= j < lv[m].len() implies {
                &&& w.orders.contains_key(#[trigger] lv[m][j])
                &&& w.orders[lv[m][j]].side == ss
                &&& w.level_of(w.orders[lv[m][j]].price) == m
            } by {
                assert(self.levels_wf(ss));
                if ss == side && m == l {
                    assert(q.remove(kq).contains(lv[m][j]));
                    assert(q.contains(lv[m][j]));
                    let jj = choose|jj: int| 0 <= jj < q.len() && q[jj] == lv[m][j];
                    assert(self.orders.contains_key(self.levels(ss)[m][jj]));
                } else {
                    assert(lv[m][j] == self.levels(ss)[m][j]);
                    assert(self.orders.contains_key(self.levels(ss)[m][j]));
                }
            }
        }
        assert(w.levels_wf(Side::Bid));
        assert(w.levels_wf(Side::Ask));
        assert forall|x: u64| #[trigger] w.orders.contains_key(x) implies {
            let rx = w.orders[x];
            &&& rx.price.wf()
            &&& rx.qty.wf()
            &&& rx.remaining > 0
            &&& rx.remaining <= rx.qty.value()
            &&& in_ladder(rx.price.value(), w.reference.value())
            &&& w.levels(rx.side)[w.level_of(rx.price)].contains(x)
        } by {
            assert(self.orders.contains_key(x));
        }
        lemma_opposite(side);
    }

    pub proof fn lemma_reduce_order(self, id: u64, by: i64)
        requires
            self.wf(),
            self.orders.contains_key(id),
            0 < by < self.orders[id].remaining,
        ensures
            self.reduce_order(id, by).wf(),
            self.reduce_order(id, by).bids == self.bids,
            self.reduce_order(id, by).asks == self.asks,
            self.reduce_order(id, by).resting_count() == self.resting_count(),
            self.reduce_order(id, by).reference == self.reference,
            self.reduce_order(id, by).capacity == self.capacity,
    {
        let w = self.reduce_order(id, by);
        assert(w.orders.dom() =~= self.orders.dom());
        assert forall|ss: Side| #[trigger] w.levels_wf(ss) by {
            assert(self.levels_wf(ss));
        }
        assert(w.levels_wf(Side::Bid));
        assert(w.levels_wf(Side::Ask));
    }

    pub proof fn lemma_add_order(self, id: u64, r: Resting)
        requires
            self.wf(),
            !self.orders.contains_key(id),
            r.price.wf(),
            r.qty.wf(),
            r.remaining > 0,
            r.remaining <= r.qty.value(),
            in_ladder(r.price.value(), self.reference.value()),
            self.resting_count() < self.capacity,
        ensures
            self.add_order(id, r).wf(),
            self.add_order(id, r).resting_count() == self.resting_count() + 1,
            self.add_order(id, r).levels(opposite(r.side)) == self.levels(opposite(r.side)),
    {
        let w = self.add_order(id, r);
        let l = self.level_of(r.price);
        let q = self.levels(r.side)[l];
        assert(w.orders.dom() =~= self.orders.dom().insert(id));
        assert(!q.contains(id)) by {
            assert(self.levels_wf(r.side));
            if q.contains(id) {
                let j = choose|j: int| 0 <= j < q.len() && q[j] == id;
                assert(self.orders.contains_key(self.levels(r.side)[l][j]));
            }
        }
        assert forall|ss: Side| #[trigger] w.levels_wf(ss) by {
            let lv = w.levels(ss);
            assert(self.levels_wf(ss));
            assert forall|m: int| 0 <= m < LADDER_SIZE implies (#[trigger] lv[m]).no_duplicates() by {
                if ss == r.side && m == l {
                    assert forall|a: int, b: int|
                        0 <= a < lv[m].len() && 0 <= b < lv[m].len() && a != b implies lv[m][a]
                        != lv[m][b] by {
                        if a < q.len() && b < q.len() {
                            assert(q[a] != q[b]);
                        } else if a < q.len() {
                            assert(q.contains(q[a]));
                        } else {
                            assert(q.contains(q[b]));
                        }
                    }
                }
            }
            assert forall|m: int, j: int| 0 <= m < LADDER_SIZE && 0 <= j < lv[m].len() implies {
                &&& w.orders.contains_key(#[trigger] lv[m][j])
                &&& w.orders[lv[m][j]].side == ss
                &&& w.level_of(w.orders[lv[m][j]].price) == m
            } by {
                if ss == r.side && m == l {
                    if j < q.len() {
                        assert(lv[m][j] == q[j]);
                        assert(self.orders.contains_key(self.levels(ss)[m][j]));
                    }
                } else {
                    assert(lv[m][j] == self.levels(ss)[m][j]);
                    assert(self.orders.contains_key(self.levels(ss)[m][j]));
                }
            }
        }
        assert(w.levels_wf(Side::Bid));
        assert(w.levels_wf(Side::Ask));
        assert forall|x: u64| #[trigger] w.orders.contains_key(x) implies {
            let rx = w.orders[x];
            &&& rx.price.wf()
            &&& rx.qty.wf()
            &&& rx.remaining > 0
            &&& rx.remaining <= rx.qty.value()
            &&& in_ladder(rx.price.value(), w.reference.value())
            &&& w.levels(rx.side)[w.level_of(rx.price)].contains(x)
        } by {
            if x == id {
                assert(w.levels(r.side)[l][q.len() as int] == id);
            } else {
                let rx = self.orders[x];
                let qx = self.levels(rx.side)[self.level_of(rx.price)];
                assert(qx.contains(x));
                let j = choose|j: int| 0 <= j < qx.len() && qx[j] == x;
                assert(w.levels(rx.side)[self.level_of(rx.price)][j] == x);
            }
        }
        lemma_opposite(r.side);
    }
}

pub proof fn lemma_opposite(side: Side)
    ensures
        opposite(side) != side,
        opposite(opposite(side)) == side,
{
}

/// Matching leaves a well-formed book; it takes no order of the taker's
/// side, adds none, and never increases the taker's remainder.
pub proof fn lemma_match(v: BookView, t: Taker, remaining: i64)
    requires
        v.wf(),
        remaining >= 0,
    ensures
        ({
            let m = match_taker(v, t, remaining);
            &&& m.book.wf()
            &&& m.book.levels(t.side) == v.levels(t.side)
            &&& m.book.reference == v.reference
            &&& m.book.capacity == v.capacity
            &&& 0 <= m.remaining <= remaining
            &&& m.stp ==> m.remaining == 0
            &&& m.book.resting_count() <= v.resting_count()
            &&& forall|id: u64|
                v.orders.contains_key(id) && v.orders[id].side == t.side ==> m.book.orders.contains_key(
                    id,
                ) && m.book.orders[id] == v.orders[id]
            &&& forall|id: u64| #[trigger]
                m.book.orders.contains_key(id) ==> v.orders.contains_key(id)
        }),
    decreases remaining + v.orders.dom().len(),
{
    let opp = opposite(t.side);
    lemma_opposite(t.side);
    if remaining <= 0 || !v.orders.dom().finite() {
    } else {
        match v.best_level(opp) {
            None => {},
            Some(l) => {
                if stops_before(t.side, level_price(l, v.reference.value()), t.price.value()) {
                } else {
                    crate::ladder::lemma_best_of(opp, v.levels(opp));
                    let id = v.levels(opp)[l][0];
                    assert(v.levels_wf(opp));
                    assert(v.orders.contains_key(v.levels(opp)[l][0]));
                    let maker = v.orders[id];
                    assert(maker.side == opp);
                    assert(v.orders.remove(id).dom() =~= v.orders.dom().remove(id));
                    assert(v.orders.insert(id, maker).dom() =~= v.orders.dom());
                    if maker.subaccount == t.subaccount {
                        match t.stp {
                            SelfTradeMode::ExpireTaker => {},
                            SelfTradeMode::ExpireMaker => {
                                v.lemma_remove_order(id);
                                lemma_match(v.remove_order(id), t, remaining);
                            },
                            SelfTradeMode::ExpireBoth => {
                                v.lemma_remove_order(id);
                            },
                        }
                    } else {
                        let fill = min(remaining, maker.remaining);
                        if fill == maker.remaining {
                            v.lemma_remove_order(id);
                            lemma_match(v.remove_order(id), t, (remaining - fill) as i64);
                        } else {
                            v.lemma_reduce_order(id, fill);
                            lemma_match(v.reduce_order(id, fill), t, (remaining - fill) as i64);
                        }
                    }
                }
            },
        }
    }
}

pub proof fn lemma_sum_remaining_frame(o1: Map<u64, Resting>, o2: Map<u64, Resting>, ids: Seq<u64>)
    requires
        forall|k: int|
            0 <= k < ids.len() ==> o2[#[trigger] ids[k]].remaining == o1[ids[k]].remaining,
    ensures
        sum_remaining(o1, ids) == sum_remaining(o2, ids),
    decreases ids.len(),
{
    if ids.len() > 0 {
        let d = ids.drop_last();
        assert forall|k: int| 0 <= k < d.len() implies o2[#[trigger] d[k]].remaining
            == o1[d[k]].remaining by {
            assert(d[k] == ids[k]);
        }
        lemma_sum_remaining_frame(o1, o2, d);
        assert(ids[ids.len() - 1] == ids.last());
    }
}

/// Matching leaves every level of the taker's own side as it was.
pub proof fn lemma_match_level_qty(v: BookView, t: Taker, remaining: i64, l: int)
    requires
        v.wf(),
        remaining >= 0,
        0 <= l < LADDER_SIZE,
    ensures
        match_taker(v, t, remaining).book.level_qty(t.side, l) == v.level_qty(t.side, l),
{
    lemma_match(v, t, remaining);
    let m = match_taker(v, t, remaining);
    let ids = v.levels(t.side)[l];
    assert(v.levels_wf(t.side));
    assert forall|k: int| 0 <= k < ids.len() implies m.book.orders[#[trigger] ids[k]].remaining
        == v.orders[ids[k]].remaining by {
        assert(v.orders.contains_key(v.levels(t.side)[l][k]));
    }
    lemma_sum_remaining_frame(v.orders, m.book.orders, ids);
}

/// The quantity a single event reports traded.
pub open spec fn trade_qty(e: Event) -> int {
    match e {
        Event::Trade { qty, .. } => qty.value() as int,
        _ => 0,
    }
}

/// The total quantity the events report traded.
pub open spec fn traded(events: Seq<Event>) -> int
    decreases events.len(),
{
    if events.len() == 0 {
        0
    } else {
        trade_qty(events[0]) + traded(events.drop_first())
    }
}

/// A trade at `price` respects the limit of a taker on `side`.
pub open spec fn within_limit(side: Side, price: i64, limit: i64) -> bool {
    match side {
        Side::Bid => price <= limit,
        Side::Ask => price >= limit,
    }
}

/// Every trade in `events` respects the taker's limit and pairs orders of
/// two different subaccounts.
pub open spec fn fair_trades(events: Seq<Event>, t: Taker) -> bool {
    forall|k: int|
        0 <= k < events.len() ==> match #[trigger] events[k] {
            Event::Trade { price, maker_subaccount, taker_subaccount, .. } => within_limit(
                t.side,
                price.value(),
                t.price.value(),
            ) && maker_subaccount != taker_subaccount,
            _ => true,
        }
}

pub proof fn lemma_traded_prepend(e: Event, rest: Seq<Event>)
    ensures
        traded(seq![e] + rest) == trade_qty(e) + traded(rest),
{
    assert((seq![e] + rest).drop_first() =~= rest);
}

pub proof fn lemma_fair_prepend(e: Event, rest: Seq<Event>, t: Taker)
    requires
        fair_trades(rest, t),
        fair_trades(seq![e], t),
    ensures
        fair_trades(seq![e] + rest, t),
{
    let s = seq![e] + rest;
    assert forall|k: int| 0 <= k < s.len() implies match #[trigger] s[k] {
        Event::Trade { price, maker_subaccount, taker_subaccount, .. } => within_limit(
            t.side,
            price.value(),
            t.price.value(),
        ) && maker_subaccount != taker_subaccount,
        _ => true,
    } by {
        if k == 0 {
            assert(s[0] == seq![e][0]);
        } else {
            assert(s[k] == rest[k - 1]);
        }
    }
}

/// What matching guarantees: fair trades, conservation of the taker's
/// quantity, an opposite side that only shrinks, and, when a remainder is
/// left, an opposite side that no longer crosses the taker's limit.
pub proof fn lemma_match_facts(v: BookView, t: Taker, remaining: i64)
    requires
        v.wf(),
        remaining >= 0,
    ensures
        ({
            let m = match_taker(v, t, remaining);
            let opp = opposite(t.side);
            &&& fair_trades(m.events, t)
            &&& 0 <= traded(m.events) <= remaining
            &&& !m.stp ==> traded(m.events) + m.remaining == remaining
            &&& m.stp ==> m.events.len() > 0 && m.events.last() == cancelled(
                t.order_id,
                t.subaccount,
                (remaining - traded(m.events)) as i64,
            )
            &&& m.book.levels(opp).len() == v.levels(opp).len()
            &&& forall|l: int|
                0 <= l < v.levels(opp).len() ==> (#[trigger] m.book.levels(opp)[l]).len()
                    <= v.levels(opp)[l].len()
            &&& m.remaining > 0 && !m.stp ==> match m.book.best_level(opp) {
                None => true,
                Some(l) => stops_before(t.side, level_price(l, v.reference.value()), t.price.value()),
            }
            &&& m.events.len() == 0 ==> m.book == v && m.remaining == remaining && !m.stp
        }),
    decreases remaining + v.orders.dom().len(),
{
    let opp = opposite(t.side);
    lemma_opposite(t.side);
    let m = match_taker(v, t, remaining);
    if remaining <= 0 || !v.orders.dom().finite() {
    } else {
        match v.best_level(opp) {
            None => {},
            Some(l) => {
                if stops_before(t.side, level_price(l, v.reference.value()), t.price.value()) {
                } else {
                    crate::ladder::lemma_best_of(opp, v.levels(opp));
                    let id = v.levels(opp)[l][0];
                    assert(v.levels_wf(opp));
                    assert(v.orders.contains_key(v.levels(opp)[l][0]));
                    let maker = v.orders[id];
                    assert(v.level_of(maker.price) == l);
                    assert(v.orders.remove(id).dom() =~= v.orders.dom().remove(id));
                    assert(v.orders.insert(id, maker).dom() =~= v.orders.dom());
                    let maker_cancel = cancelled(OrderId(id), maker.subaccount, maker.remaining);
                    let taker_cancel = cancelled(t.order_id, t.subaccount, remaining);
                    if maker.subaccount == t.subaccount {
                        match t.stp {
                            SelfTradeMode::ExpireTaker => {
                                assert(traded(seq![taker_cancel]) == 0) by {
                                    lemma_traded_prepend(taker_cancel, Seq::empty());
                                    assert(traded(Seq::<Event>::empty()) == 0);
                                    assert(seq![taker_cancel] + Seq::<Event>::empty() =~= seq![taker_cancel]);
                                }
                            },
                            SelfTradeMode::ExpireMaker => {
                                let w = v.remove_order(id);
                                v.lemma_remove_order(id);
                                lemma_match_facts(w, t, remaining);
                                let rest = match_taker(w, t, remaining);
                                lemma_traded_prepend(maker_cancel, rest.events);
                                lemma_fair_prepend(maker_cancel, rest.events, t);
                                assert((seq![maker_cancel] + rest.events).last() == rest.events.last()
                                    || rest.events.len() == 0);
                                assert forall|j: int| 0 <= j < v.levels(opp).len() implies (
                                #[trigger] w.levels(opp)[j]).len() <= v.levels(opp)[j].len() by {
                                    if j == l {
                                        let q = v.levels(opp)[l];
                                        assert(q.contains(id));
                                        lemma_remove_at(q, q.index_of(id));
                                    }
                                }
                            },
                            SelfTradeMode::ExpireBoth => {
                                let w = v.remove_order(id);
                                v.lemma_remove_order(id);
                                lemma_traded_prepend(maker_cancel, seq![taker_cancel]);
                                lemma_traded_prepend(taker_cancel, Seq::empty());
                                assert(traded(Seq::<Event>::empty()) == 0);
                                assert(seq![taker_cancel] + Seq::<Event>::empty() =~= seq![taker_cancel]);
                                assert(seq![maker_cancel] + seq![taker_cancel] =~= seq![maker_cancel, taker_cancel]);
                                assert forall|j: int| 0 <= j < v.levels(opp).len() implies (
                                #[trigger] w.levels(opp)[j]).len() <= v.levels(opp)[j].len() by {
                                    if j == l {
                                        let q = v.levels(opp)[l];
                                        assert(q.contains(id));
                                        lemma_remove_at(q, q.index_of(id));
                                    }
                                }
                            },
                        }
                    } else {
                        let fill = min(remaining, maker.remaining);
                        let trade = Event::Trade {
                            maker_order_id: OrderId(id),
                            taker_order_id: t.order_id,
                            maker_subaccount: maker.subaccount,
                            taker_subaccount: t.subaccount,
                            price: maker.price,
                            qty: Qty::from_value(fill),
                        };
                        let w = if fill == maker.remaining {
                            v.remove_order(id)
                        } else {
                            v.reduce_order(id, fill)
                        };
                        if fill == maker.remaining {
                            v.lemma_remove_order(id);
                            assert forall|j: int| 0 <= j < v.levels(opp).len() implies (
                            #[trigger] w.levels(opp)[j]).len() <= v.levels(opp)[j].len() by {
                                if j == l {
                                    let q = v.levels(opp)[l];
                                    assert(q.contains(id));
                                    lemma_remove_at(q, q.index_of(id));
                                }
                            }
                        } else {
                            v.lemma_reduce_order(id, fill);
                        }
                        lemma_match_facts(w, t, (remaining - fill) as i64);
                        let rest = match_taker(w, t, (remaining - fill) as i64);
                        lemma_traded_prepend(trade, rest.events);
                        assert(fair_trades(seq![trade], t)) by {
                            assert(seq![trade][0] == trade);
                        }
                        lemma_fair_prepend(trade, rest.events, t);
                    }
                }
            },
        }
    }
}

} // verus!

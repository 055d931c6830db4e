//! What holds of the book across operations.
use crate::events::{Event, RejectReason};
use crate::ladder::{best_of, in_ladder, is_best_level, lemma_best_of, level_index, level_price};
use crate::model::{
    apply, cancel, cancelled, op_wf, fair_trades, lemma_match, lemma_match_facts, lemma_opposite,
    lemma_remove_at, match_taker, opposite, place, stops_before, traded, trade_qty, BookView,
    Resting, Taker,
};
use crate::ops::Op;
use crate::priority::{
    at_maker_prices, lemma_at_maker_prices_concat, lemma_match_priority, lemma_met_makers_concat,
    lemma_met_makers_single, met_makers, priority_order,
};
use crate::types::{OrderId, Price, Qty, SelfTradeMode, Side, SubaccountId};
use vstd::prelude::*;

verus! {

broadcast use crate::types::group_types;

/// The best bid is below the best ask, whenever both sides have orders.
pub open spec fn uncrossed(v: BookView) -> bool {
    match (v.best_price(Side::Bid), v.best_price(Side::Ask)) {
        (Some(b), Some(a)) => b < a,
        _ => true,
    }
}

/// A side whose levels only lost orders has a best level no better than
/// before.
proof fn lemma_best_shrink(side: Side, a: Seq<Seq<u64>>, b: Seq<Seq<u64>>)
    requires
        a.len() == b.len(),
        forall|l: int| 0 <= l < a.len() ==> (#[trigger] b[l]).len() <= a[l].len(),
    ensures
        match best_of(side, b) {
            None => true,
            Some(x) => match best_of(side, a) {
                None => false,
                Some(y) => match side {
                    Side::Bid => x <= y,
                    Side::Ask => y <= x,
                },
            },
        },
{
    lemma_best_of(side, a);
    lemma_best_of(side, b);
    if let Some(x) = best_of(side, b) {
        assert(a[x].len() > 0);
    }
}

/// A side that gained level `g` and kept the others has as best level the
/// better of its old best and `g`.
proof fn lemma_best_grow(side: Side, a: Seq<Seq<u64>>, b: Seq<Seq<u64>>, g: int)
    requires
        a.len() == b.len(),
        0 <= g < a.len(),
        b[g].len() > 0,
        forall|l: int| 0 <= l < a.len() && l != g ==> (#[trigger] b[l]).len() == a[l].len(),
    ensures
        best_of(side, b) == match best_of(side, a) {
            None => Some(g),
            Some(x) => Some(
                match side {
                    Side::Bid => if g > x {
                        g
                    } else {
                        x
                    },
                    Side::Ask => if g < x {
                        g
                    } else {
                        x
                    },
                },
            ),
        },
{
    lemma_best_of(side, a);
    lemma_best_of(side, b);
    match best_of(side, a) {
        None => {
            assert(is_best_level(side, b, g)) by {
                assert forall|l: int| 0 <= l < b.len() && (#[trigger] b[l]).len() > 0 implies match side {
                    Side::Bid => l <= g,
                    Side::Ask => g <= l,
                } by {
                    if l != g {
                        assert(a[l].len() > 0);
                    }
                }
            }
        },
        Some(x) => {
            let y = match side {
                Side::Bid => if g > x {
                    g
                } else {
                    x
                },
                Side::Ask => if g < x {
                    g
                } else {
                    x
                },
            };
            assert(is_best_level(side, b, y)) by {
                if y != g {
                    assert(b[x].len() == a[x].len());
                }
                assert forall|l: int| 0 <= l < b.len() && (#[trigger] b[l]).len() > 0 implies match side {
                    Side::Bid => l <= y,
                    Side::Ask => y <= l,
                } by {
                    if l != g {
                        assert(a[l].len() > 0);
                    }
                }
            }
        },
    }
}

proof fn lemma_uncrossed_levels(v: BookView)
    ensures
        uncrossed(v) <==> match (v.best_level(Side::Bid), v.best_level(Side::Ask)) {
            (Some(b), Some(a)) => b < a,
            _ => true,
        },
{
}

/// Law: the book is never crossed. Every operation applied to a well-formed
/// book whose best bid is below its best ask leaves a well-formed book with
/// the same property: an incoming order trades until it no longer crosses,
/// and only then rests.
pub proof fn law_apply_keeps_book_uncrossed(v: BookView, op: Op)
    requires
        v.wf(),
        op_wf(op),
        uncrossed(v),
    ensures
        apply(v, op).0.wf(),
        uncrossed(apply(v, op).0),
{
    lemma_uncrossed_levels(v);
    let w = apply(v, op).0;
    lemma_uncrossed_levels(w);
    match op {
        Op::Place { order_id, subaccount, side, price, qty, stp } => {
            if v.orders.contains_key(order_id.0) {
            } else {
                let t = Taker { order_id, subaccount, side, price, stp };
                let m = match_taker(v, t, qty.value());
                let opp = opposite(side);
                lemma_opposite(side);
                {
                    lemma_match(v, t, qty.value());
                    lemma_match_facts(v, t, qty.value());
                    assert(v.levels_wf(opp));
                    lemma_best_shrink(opp, v.levels(opp), m.book.levels(opp));
                    if m.stp || m.remaining == 0 || m.book.resting_count() >= m.book.capacity
                        || !in_ladder(price.value(), v.reference.value()) {
                        assert(w == m.book);
                    } else {
                        let r = Resting { subaccount, side, price, qty, remaining: m.remaining };
                        m.book.lemma_add_order(order_id.0, r);
                        let g = m.book.level_of(price);
                        let a = m.book.levels(side);
                        let b = w.levels(side);
                        assert(w == m.book.add_order(order_id.0, r));
                        assert(b == a.update(g, a[g].push(order_id.0)));
                        assert(m.book.levels_wf(side));
                        lemma_best_grow(side, a, b, g);
                        assert(w.levels(opp) == m.book.levels(opp));
                    }
                }
            }
        },
        Op::Cancel { order_id, subaccount } => {
            if !v.orders.contains_key(order_id.0) || v.orders[order_id.0].subaccount != subaccount {
            } else {
                let id = order_id.0;
                let s = v.orders[id].side;
                v.lemma_remove_order(id);
                lemma_opposite(s);
                let l = v.level_of(v.orders[id].price);
                let q = v.levels(s)[l];
                assert(v.levels_wf(s));
                assert(q.contains(id));
                lemma_remove_at(q, q.index_of(id));
                lemma_best_shrink(s, v.levels(s), w.levels(s));
            }
        },
    }
}

proof fn lemma_fair_concat(a: Seq<Event>, b: Seq<Event>, t: Taker)
    requires
        fair_trades(a, t),
        fair_trades(b, t),
    ensures
        fair_trades(a + b, t),
{
    let s = a + b;
    assert forall|k: int| 0 <= k < s.len() implies match #[trigger] s[k] {
        Event::Trade { price, maker_subaccount, taker_subaccount, .. } => crate::model::within_limit(
            t.side,
            price.value(),
            t.price.value(),
        ) && maker_subaccount != taker_subaccount,
        _ => true,
    } by {
        if k < a.len() {
            assert(s[k] == a[k]);
        } else {
            assert(s[k] == b[k - a.len()]);
        }
    }
}

proof fn lemma_traded_concat(a: Seq<Event>, b: Seq<Event>)
    ensures
        traded(a + b) == traded(a) + traded(b),
    decreases a.len(),
{
    if a.len() > 0 {
        lemma_traded_concat(a.drop_first(), b);
        assert((a + b).drop_first() =~= a.drop_first() + b);
    } else {
        assert(a + b =~= b);
    }
}

proof fn lemma_traded_single(e: Event)
    ensures
        traded(seq![e]) == trade_qty(e),
{
    assert(seq![e].drop_first() =~= Seq::<Event>::empty());
    assert(traded(Seq::<Event>::empty()) == 0);
}

/// Law: every trade an order makes when placed is at a price no worse than
/// its limit, and never pairs two orders of the same subaccount.
pub proof fn law_place_trades_are_fair(
    v: BookView,
    order_id: OrderId,
    subaccount: SubaccountId,
    side: Side,
    price: Price,
    qty: Qty,
    stp: SelfTradeMode,
)
    requires
        v.wf(),
        qty.wf(),
    ensures
        fair_trades(
            place(v, order_id, subaccount, side, price, qty, stp).1,
            Taker { order_id, subaccount, side, price, stp },
        ),
{
    let t = Taker { order_id, subaccount, side, price, stp };
    let e = place(v, order_id, subaccount, side, price, qty, stp).1;
    if v.orders.contains_key(order_id.0) {
        assert(e[0] == Event::Rejected { order_id, reason: RejectReason::DuplicateOrderId });
        assert(fair_trades(e, t));
    } else {
        let m = match_taker(v, t, qty.value());
        lemma_match_facts(v, t, qty.value());
        let acc = seq![Event::Accepted { order_id, subaccount, side, price, qty }];
        assert(fair_trades(acc, t)) by {
            assert(acc[0] == Event::Accepted { order_id, subaccount, side, price, qty });
        }
        lemma_fair_concat(acc, m.events, t);
        let tail1 = seq![cancelled(order_id, subaccount, m.remaining)];
        let tail2 = seq![Event::Rejected { order_id, reason: RejectReason::PriceOutOfRange }];
        assert(fair_trades(tail1, t)) by {
            assert(tail1[0] == cancelled(order_id, subaccount, m.remaining));
        }
        assert(fair_trades(tail2, t)) by {
            assert(tail2[0] == Event::Rejected { order_id, reason: RejectReason::PriceOutOfRange });
        }
        lemma_fair_concat(acc + m.events, tail1, t);
        lemma_fair_concat(acc + m.events, tail2, t);
        assert((acc + m.events).push(cancelled(order_id, subaccount, m.remaining)) =~= (acc
            + m.events) + tail1);
        assert((acc + m.events).push(
            Event::Rejected { order_id, reason: RejectReason::PriceOutOfRange },
        ) =~= (acc + m.events) + tail2);
    }
}

/// Law: a placed order's quantity is accounted for. What it did not trade
/// either rests in the book as its remainder, or is reported in the last
/// event, as cancelled (self-trade prevention, full pool) or as refused
/// (price off the ladder).
pub proof fn law_place_conserves_quantity(
    v: BookView,
    order_id: OrderId,
    subaccount: SubaccountId,
    side: Side,
    price: Price,
    qty: Qty,
    stp: SelfTradeMode,
)
    requires
        v.wf(),
        qty.wf(),
        !v.orders.contains_key(order_id.0),
    ensures
        ({
            let (w, e) = place(v, order_id, subaccount, side, price, qty, stp);
            let left = qty.value() - traded(e);
            &&& 0 <= left <= qty.value()
            &&& w.orders.contains_key(order_id.0) ==> w.orders[order_id.0].remaining == left
            &&& !w.orders.contains_key(order_id.0) && left > 0 ==> e.last() == cancelled(
                order_id,
                subaccount,
                left as i64,
            ) || e.last() == Event::Rejected {
                order_id,
                reason: RejectReason::PriceOutOfRange,
            }
        }),
{
    let t = Taker { order_id, subaccount, side, price, stp };
    let (w, e) = place(v, order_id, subaccount, side, price, qty, stp);
    let m = match_taker(v, t, qty.value());
    lemma_match(v, t, qty.value());
    lemma_match_facts(v, t, qty.value());
    let accepted = Event::Accepted { order_id, subaccount, side, price, qty };
    let acc = seq![accepted];
    lemma_traded_single(accepted);
    lemma_traded_concat(acc, m.events);
    let tail1 = seq![cancelled(order_id, subaccount, m.remaining)];
    let tail2 = seq![Event::Rejected { order_id, reason: RejectReason::PriceOutOfRange }];
    lemma_traded_single(cancelled(order_id, subaccount, m.remaining));
    lemma_traded_single(Event::Rejected { order_id, reason: RejectReason::PriceOutOfRange });
    lemma_traded_concat(acc + m.events, tail1);
    lemma_traded_concat(acc + m.events, tail2);
    assert((acc + m.events).push(cancelled(order_id, subaccount, m.remaining)) =~= (acc + m.events)
        + tail1);
    assert((acc + m.events).push(Event::Rejected { order_id, reason: RejectReason::PriceOutOfRange })
        =~= (acc + m.events) + tail2);
    if m.stp {
        assert((acc + m.events).last() == m.events.last());
    } else if m.remaining == 0 {
    } else if m.book.resting_count() >= m.book.capacity {
    } else if !in_ladder(price.value(), v.reference.value()) {
    } else {
        assert(w == m.book.add_order(
            order_id.0,
            Resting { subaccount, side, price, qty, remaining: m.remaining },
        ));
    }
}

/// Law: cancelling an order that was just placed and rested untouched (its
/// placement reported nothing but its acceptance) gives back the book as it
/// was before the placement, and reports the whole quantity cancelled.
pub proof fn law_cancel_undoes_resting_place(
    v: BookView,
    order_id: OrderId,
    subaccount: SubaccountId,
    side: Side,
    price: Price,
    qty: Qty,
    stp: SelfTradeMode,
)
    requires
        v.wf(),
        qty.wf(),
        place(v, order_id, subaccount, side, price, qty, stp).1 == seq![
            Event::Accepted { order_id, subaccount, side, price, qty },
        ],
    ensures
        cancel(place(v, order_id, subaccount, side, price, qty, stp).0, order_id, subaccount)
            == (v, seq![cancelled(order_id, subaccount, qty.value())]),
{
    let t = Taker { order_id, subaccount, side, price, stp };
    let (w, e) = place(v, order_id, subaccount, side, price, qty, stp);
    let accepted = Event::Accepted { order_id, subaccount, side, price, qty };
    if v.orders.contains_key(order_id.0) {
        assert(e[0] == accepted);
    } else {
        let m = match_taker(v, t, qty.value());
        lemma_match_facts(v, t, qty.value());
        assert(m.events.len() == 0) by {
            assert(e.len() >= 1 + m.events.len());
        }
        assert(m.book == v && m.remaining == qty.value() && !m.stp);
        if v.resting_count() >= v.capacity {
            assert(e.len() == 2);
        } else if !in_ladder(price.value(), v.reference.value()) {
            assert(e.len() == 2);
        } else {
            let r = Resting { subaccount, side, price, qty, remaining: qty.value() };
            assert(w == v.add_order(order_id.0, r));
            lemma_remove_added(v, order_id.0, r);
        }
    }
}

/// Removing an order just added gives back the book it was added to.
proof fn lemma_remove_added(v: BookView, id: u64, r: Resting)
    requires
        v.wf(),
        !v.orders.contains_key(id),
        in_ladder(r.price.value(), v.reference.value()),
    ensures
        v.add_order(id, r).remove_order(id) == v,
{
    let w = v.add_order(id, r);
    let l = v.level_of(r.price);
    let q = v.levels(r.side)[l];
    assert(!q.contains(id)) by {
        assert(v.levels_wf(r.side));
        if q.contains(id) {
            let j = choose|j: int| 0 <= j < q.len() && q[j] == id;
            assert(v.orders.contains_key(v.levels(r.side)[l][j]));
        }
    }
    let qp = q.push(id);
    assert(qp.index_of(id) == q.len()) by {
        assert(qp[q.len() as int] == id);
        let j = qp.index_of(id);
        assert(0 <= j < qp.len() && qp[j] == id);
        if j < q.len() {
            assert(q[j] == id);
        }
    }
    assert(qp.remove(q.len() as int) =~= q);
    let u = w.remove_order(id);
    assert(w.orders[id] == r);
    assert(u.orders =~= v.orders);
    assert(u.levels(r.side) =~= v.levels(r.side));
    lemma_opposite(r.side);
    assert(u.levels(opposite(r.side)) == v.levels(opposite(r.side)));
    assert(u.bids == v.bids);
    assert(u.asks == v.asks);
}

/// Law: the same, through `apply`, which `OrderBook::apply` follows. A
/// placement answered only by its acceptance, then a cancel of that order by
/// its owner, leaves the book as it was and reports the whole quantity
/// cancelled; a second cancel of it is refused as not found and changes
/// nothing.
pub proof fn law_apply_cancel_undoes_resting_place(
    v: BookView,
    order_id: OrderId,
    subaccount: SubaccountId,
    side: Side,
    price: Price,
    qty: Qty,
    stp: SelfTradeMode,
)
    requires
        v.wf(),
        qty.wf(),
        apply(v, Op::Place { order_id, subaccount, side, price, qty, stp }).1 == seq![
            Event::Accepted { order_id, subaccount, side, price, qty },
        ],
    ensures
        ({
            let w = apply(v, Op::Place { order_id, subaccount, side, price, qty, stp }).0;
            let (x, e) = apply(w, Op::Cancel { order_id, subaccount });
            &&& x == v
            &&& e == seq![cancelled(order_id, subaccount, qty.value())]
            &&& apply(x, Op::Cancel { order_id, subaccount }) == (
                x,
                seq![Event::Rejected { order_id, reason: RejectReason::OrderNotFound }],
            )
        }),
{
    law_cancel_undoes_resting_place(v, order_id, subaccount, side, price, qty, stp);
    // the placement was accepted, so its id was not resting before
    if v.orders.contains_key(order_id.0) {
        let e = place(v, order_id, subaccount, side, price, qty, stp).1;
        assert(e[0] == Event::Rejected { order_id, reason: RejectReason::DuplicateOrderId });
        assert(e[0] == Event::Accepted { order_id, subaccount, side, price, qty });
    }
}

/// Law: an operation that is refused outright (answered with a single
/// `Rejected` event) leaves the book unchanged.
pub proof fn law_refusal_leaves_book_unchanged(v: BookView, op: Op)
    requires
        apply(v, op).1.len() == 1,
        apply(v, op).1[0] is Rejected,
    ensures
        apply(v, op).0 == v,
{
    match op {
        Op::Place { order_id, subaccount, side, price, qty, stp } => {
            if !v.orders.contains_key(order_id.0) {
                let e = apply(v, op).1;
                assert(e[0] == Event::Accepted { order_id, subaccount, side, price, qty });
            }
        },
        Op::Cancel { .. } => {},
    }
}

/// Law: an order leaves the book once. After a successful cancel, a second
/// cancel of the same id is refused as not found.
pub proof fn law_cancel_is_final(v: BookView, order_id: OrderId, subaccount: SubaccountId)
    requires
        v.wf(),
        cancel(v, order_id, subaccount).1[0] is Cancelled,
    ensures
        cancel(cancel(v, order_id, subaccount).0, order_id, subaccount).1 == seq![
            Event::Rejected { order_id, reason: RejectReason::OrderNotFound },
        ],
        cancel(cancel(v, order_id, subaccount).0, order_id, subaccount).0 == cancel(
            v,
            order_id,
            subaccount,
        ).0,
{
    if v.orders.contains_key(order_id.0) && v.orders[order_id.0].subaccount == subaccount {
        v.lemma_remove_order(order_id.0);
    }
}

/// Law: price-time priority. The resting orders a placed order meets (those
/// it trades with, and those self-trade prevention expires) are the first
/// orders of the opposite side taken best price first and, within a price,
/// in the order they arrived; and each trade is at the price of the resting
/// order it fills.
pub proof fn law_place_follows_price_time_priority(
    v: BookView,
    order_id: OrderId,
    subaccount: SubaccountId,
    side: Side,
    price: Price,
    qty: Qty,
    stp: SelfTradeMode,
)
    requires
        v.wf(),
        qty.wf(),
    ensures
        ({
            let e = place(v, order_id, subaccount, side, price, qty, stp).1;
            let opp = opposite(side);
            &&& met_makers(e, order_id).is_prefix_of(priority_order(opp, v.levels(opp)))
            &&& at_maker_prices(e, v.orders)
        }),
{
    let e = place(v, order_id, subaccount, side, price, qty, stp).1;
    let opp = opposite(side);
    let rejected = Event::Rejected { order_id, reason: RejectReason::DuplicateOrderId };
    lemma_met_makers_single(rejected, order_id);
    if v.orders.contains_key(order_id.0) {
        assert(e =~= seq![rejected]);
        assert(at_maker_prices(e, v.orders)) by {
            assert(e[0] == rejected);
        }
    } else {
        let t = Taker { order_id, subaccount, side, price, stp };
        let m = match_taker(v, t, qty.value());
        lemma_match_priority(v, t, qty.value());
        let acc = seq![Event::Accepted { order_id, subaccount, side, price, qty }];
        let tail1 = seq![cancelled(order_id, subaccount, m.remaining)];
        let tail2 = seq![Event::Rejected { order_id, reason: RejectReason::PriceOutOfRange }];
        lemma_met_makers_single(acc[0], order_id);
        lemma_met_makers_single(tail1[0], order_id);
        lemma_met_makers_single(tail2[0], order_id);
        assert(acc =~= seq![acc[0]]);
        assert(tail1 =~= seq![tail1[0]]);
        assert(tail2 =~= seq![tail2[0]]);
        lemma_met_makers_concat(acc, m.events, order_id);
        lemma_met_makers_concat(acc + m.events, tail1, order_id);
        lemma_met_makers_concat(acc + m.events, tail2, order_id);
        let mm = met_makers(m.events, order_id);
        assert(Seq::<u64>::empty() + mm =~= mm);
        assert(mm + Seq::<u64>::empty() =~= mm);
        assert(at_maker_prices(acc, v.orders)) by {
            assert(acc[0] == Event::Accepted { order_id, subaccount, side, price, qty });
        }
        assert(at_maker_prices(tail1, v.orders)) by {
            assert(tail1[0] == cancelled(order_id, subaccount, m.remaining));
        }
        assert(at_maker_prices(tail2, v.orders)) by {
            assert(tail2[0] == Event::Rejected { order_id, reason: RejectReason::PriceOutOfRange });
        }
        lemma_at_maker_prices_concat(acc, m.events, v.orders);
        lemma_at_maker_prices_concat(acc + m.events, tail1, v.orders);
        lemma_at_maker_prices_concat(acc + m.events, tail2, v.orders);
        assert((acc + m.events).push(cancelled(order_id, subaccount, m.remaining)) =~= (acc
            + m.events) + tail1);
        assert((acc + m.events).push(
            Event::Rejected { order_id, reason: RejectReason::PriceOutOfRange },
        ) =~= (acc + m.events) + tail2);
    }
}

} // verus!

//! What the book reports of the orders an operation touches: trades name
//! the incoming order as their taker, expired and cancelled orders are
//! reported with the quantity they had resting.
use crate::events::{Event, RejectReason};
use crate::ladder::{level_price, LADDER_SIZE};
use crate::model::{
    cancel, cancelled, lemma_opposite, match_taker, min, opposite, place,
    stops_before, sum_remaining, BookView, Resting, Taker,
};
use crate::types::{OrderId, Price, Qty, SelfTradeMode, Side, SubaccountId};
use vstd::prelude::*;

verus! {

broadcast use crate::types::group_types;

/// Every event of `events` reports faithfully on the order `taker` of
/// `owner` and on the resting orders `orders`: a trade names `taker` and
/// `owner` as its taker and a resting maker with its own subaccount; a
/// cancel of `taker` names `owner`; a cancel of any other order names a
/// resting order with its own subaccount and the quantity it had resting.
pub open spec fn faithful_reports(
    events: Seq<Event>,
    taker: OrderId,
    owner: SubaccountId,
    orders: Map<u64, Resting>,
) -> bool {
    forall|k: int|
        0 <= k < events.len() ==> match #[trigger] events[k] {
            Event::Trade { maker_order_id, taker_order_id, maker_subaccount, taker_subaccount, .. } => {
                &&& taker_order_id == taker
                &&& taker_subaccount == owner
                &&& orders.contains_key(maker_order_id.0)
                &&& orders[maker_order_id.0].subaccount == maker_subaccount
            },
            Event::Cancelled { order_id, subaccount, remaining_qty } => if order_id == taker {
                subaccount == owner
            } else {
                &&& orders.contains_key(order_id.0)
                &&& orders[order_id.0].subaccount == subaccount
                &&& remaining_qty.value() == orders[order_id.0].remaining
            },
            _ => true,
        }
}

proof fn lemma_faithful_concat(
    a: Seq<Event>,
    b: Seq<Event>,
    taker: OrderId,
    owner: SubaccountId,
    orders: Map<u64, Resting>,
)
    requires
        faithful_reports(a, taker, owner, orders),
        faithful_reports(b, taker, owner, orders),
    ensures
        faithful_reports(a + b, taker, owner, orders),
{
    let s = a + b;
    assert forall|k: int| 0 <= k < s.len() implies match #[trigger] s[k] {
        Event::Trade { maker_order_id, taker_order_id, maker_subaccount, taker_subaccount, .. } => {
            &&& taker_order_id == taker
            &&& taker_subaccount == owner
            &&& orders.contains_key(maker_order_id.0)
            &&& orders[maker_order_id.0].subaccount == maker_subaccount
        },
        Event::Cancelled { order_id, subaccount, remaining_qty } => if order_id == taker {
            subaccount == owner
        } else {
            &&& orders.contains_key(order_id.0)
            &&& orders[order_id.0].subaccount == subaccount
            &&& remaining_qty.value() == orders[order_id.0].remaining
        },
        _ => true,
    } by {
        if k < a.len() {
            assert(s[k] == a[k]);
        } else {
            assert(s[k] == b[k - a.len()]);
        }
    }
}

proof fn lemma_faithful_single(e: Event, taker: OrderId, owner: SubaccountId, orders: Map<u64, Resting>)
    requires
        match e {
            Event::Trade { maker_order_id, taker_order_id, maker_subaccount, taker_subaccount, .. } => {
                &&& taker_order_id == taker
                &&& taker_subaccount == owner
                &&& orders.contains_key(maker_order_id.0)
                &&& orders[maker_order_id.0].subaccount == maker_subaccount
            },
            Event::Cancelled { order_id, subaccount, remaining_qty } => if order_id == taker {
                subaccount == owner
            } else {
                &&& orders.contains_key(order_id.0)
                &&& orders[order_id.0].subaccount == subaccount
                &&& remaining_qty.value() == orders[order_id.0].remaining
            },
            _ => true,
        },
    ensures
        faithful_reports(seq![e], taker, owner, orders),
{
    assert(seq![e][0] == e);
}

/// Matching reports faithfully on the taker and on the book it started from.
proof fn lemma_match_reports(v: BookView, t: Taker, remaining: i64)
    requires
        v.wf(),
        remaining >= 0,
        !v.orders.contains_key(t.order_id.0),
    ensures
        faithful_reports(match_taker(v, t, remaining).events, t.order_id, t.subaccount, v.orders),
    decreases remaining + v.orders.dom().len(),
{
    let opp = opposite(t.side);
    lemma_opposite(t.side);
    let m = match_taker(v, t, remaining);
    if remaining <= 0 || !v.orders.dom().finite() {
    } else {
        match v.best_level(opp) {
            None => {},
            Some(l) => {
                if stops_before(t.side, level_price(l, v.reference.value()), t.price.value()) {
                } else {
                    crate::ladder::lemma_best_of(opp, v.levels(opp));
                    let id = v.levels(opp)[l][0];
                    assert(v.levels_wf(opp));
                    assert(v.orders.contains_key(v.levels(opp)[l][0]));
                    let maker = v.orders[id];
                    assert(v.orders.remove(id).dom() =~= v.orders.dom().remove(id));
                    assert(v.orders.insert(id, maker).dom() =~= v.orders.dom());
                    assert(OrderId(id) != t.order_id);
                    let maker_cancel = cancelled(OrderId(id), maker.subaccount, maker.remaining);
                    let taker_cancel = cancelled(t.order_id, t.subaccount, remaining);
                    lemma_faithful_single(maker_cancel, t.order_id, t.subaccount, v.orders);
                    lemma_faithful_single(taker_cancel, t.order_id, t.subaccount, v.orders);
                    if maker.subaccount == t.subaccount {
                        match t.stp {
                            SelfTradeMode::ExpireTaker => {},
                            SelfTradeMode::ExpireMaker => {
                                let w = v.remove_order(id);
                                v.lemma_remove_order(id);
                                lemma_match_reports(w, t, remaining);
                                let rest = match_taker(w, t, remaining);
                                assert(w.orders == v.orders.remove(id));
                                assert(faithful_reports(rest.events, t.order_id, t.subaccount, v.orders));
                                lemma_faithful_concat(
                                    seq![maker_cancel],
                                    rest.events,
                                    t.order_id,
                                    t.subaccount,
                                    v.orders,
                                );
                            },
                            SelfTradeMode::ExpireBoth => {
                                lemma_faithful_concat(
                                    seq![maker_cancel],
                                    seq![taker_cancel],
                                    t.order_id,
                                    t.subaccount,
                                    v.orders,
                                );
                                assert(seq![maker_cancel] + seq![taker_cancel] =~= seq![
                                    maker_cancel,
                                    taker_cancel,
                                ]);
                            },
                        }
                    } else {
                        let fill = min(remaining, maker.remaining);
                        let trade = Event::Trade {
                            maker_order_id: OrderId(id),
                            taker_order_id: t.order_id,
                            maker_subaccount: maker.subaccount,
                            taker_subaccount: t.subaccount,
                            price: maker.price,
                            qty: Qty::from_value(fill),
                        };
                        lemma_faithful_single(trade, t.order_id, t.subaccount, v.orders);
                        if fill == maker.remaining {
                            let w = v.remove_order(id);
                            v.lemma_remove_order(id);
                            lemma_match_reports(w, t, (remaining - fill) as i64);
                            let rest = match_taker(w, t, (remaining - fill) as i64);
                            assert(w.orders == v.orders.remove(id));
                            assert(faithful_reports(rest.events, t.order_id, t.subaccount, v.orders));
                            lemma_faithful_concat(
                                seq![trade],
                                rest.events,
                                t.order_id,
                                t.subaccount,
                                v.orders,
                            );
                        } else {
                            let w = v.reduce_order(id, fill);
                            let rest = match_taker(w, t, (remaining - fill) as i64);
                            assert(rest.events =~= Seq::<Event>::empty());
                            lemma_faithful_concat(
                                seq![trade],
                                rest.events,
                                t.order_id,
                                t.subaccount,
                                v.orders,
                            );
                        }
                    }
                }
            },
        }
    }
}

/// Law: placing an order reports faithfully. Every trade it makes names
/// the placed order and its subaccount as the taker, and a resting order of
/// the book as the maker with that order's own subaccount; every resting
/// order that self-trade prevention expires is reported cancelled with its
/// own subaccount and the quantity it had resting, whatever the size of
/// the placed order; a cancel of the placed order itself names its
/// subaccount.
pub proof fn law_place_reports_faithfully(
    v: BookView,
    order_id: OrderId,
    subaccount: SubaccountId,
    side: Side,
    price: Price,
    qty: Qty,
    stp: SelfTradeMode,
)
    requires
        v.wf(),
        qty.wf(),
    ensures
        faithful_reports(
            place(v, order_id, subaccount, side, price, qty, stp).1,
            order_id,
            subaccount,
            v.orders,
        ),
{
    let e = place(v, order_id, subaccount, side, price, qty, stp).1;
    let rejected = Event::Rejected { order_id, reason: RejectReason::DuplicateOrderId };
    if v.orders.contains_key(order_id.0) {
        lemma_faithful_single(rejected, order_id, subaccount, v.orders);
        assert(e == seq![rejected]);
    } else {
        let t = Taker { order_id, subaccount, side, price, stp };
        let m = match_taker(v, t, qty.value());
        lemma_match_reports(v, t, qty.value());
        let accepted = Event::Accepted { order_id, subaccount, side, price, qty };
        let tail1 = cancelled(order_id, subaccount, m.remaining);
        let tail2 = Event::Rejected { order_id, reason: RejectReason::PriceOutOfRange };
        lemma_faithful_single(accepted, order_id, subaccount, v.orders);
        lemma_faithful_single(tail1, order_id, subaccount, v.orders);
        lemma_faithful_single(tail2, order_id, subaccount, v.orders);
        let acc = seq![accepted];
        lemma_faithful_concat(acc, m.events, order_id, subaccount, v.orders);
        lemma_faithful_concat(acc + m.events, seq![tail1], order_id, subaccount, v.orders);
        lemma_faithful_concat(acc + m.events, seq![tail2], order_id, subaccount, v.orders);
        assert((acc + m.events).push(tail1) =~= (acc + m.events) + seq![tail1]);
        assert((acc + m.events).push(tail2) =~= (acc + m.events) + seq![tail2]);
    }
}

/// Taking order `q[k]` out of the book and its queue lowers the queue's
/// total by that order's remaining quantity.
proof fn lemma_sum_remove(o: Map<u64, Resting>, q: Seq<u64>, k: int)
    requires
        q.no_duplicates(),
        0 <= k < q.len(),
    ensures
        sum_remaining(o, q) == sum_remaining(o.remove(q[k]), q.remove(k)) + o[q[k]].remaining,
    decreases q.len(),
{
    let id = q[k];
    let o2 = o.remove(id);
    let d = q.drop_last();
    assert forall|j: int| 0 <= j < d.len() implies d[j] != id <==> j != k by {
        assert(d[j] == q[j]);
    }
    if k == q.len() - 1 {
        assert(q.remove(k) =~= d);
        assert forall|j: int| 0 <= j < d.len() implies o2[#[trigger] d[j]].remaining
            == o[d[j]].remaining by {
            assert(d[j] == q[j]);
            assert(q[j] != q[k]);
        }
        crate::model::lemma_sum_remaining_frame(o, o2, d);
    } else {
        assert(d.no_duplicates()) by {
            assert forall|a: int, b: int| 0 <= a < d.len() && 0 <= b < d.len() && a != b implies d[a]
                != d[b] by {
                assert(d[a] == q[a] && d[b] == q[b]);
            }
        }
        lemma_sum_remove(o, d, k);
        assert(d[k] == id);
        let r = q.remove(k);
        assert(r.drop_last() =~= d.remove(k));
        assert(r.last() == q.last());
        assert(q.last() != id) by {
            assert(q[q.len() - 1] != q[k]);
        }
    }
}

/// Law: a cancel by the order's owner removes it and reports it cancelled
/// with exactly the quantity it still had resting (what is left of it
/// after partial fills, not its original size): the total of its price
/// level falls by that quantity, and no other level changes. A cancel of
/// an order that is not resting, or by another subaccount, is refused and
/// changes nothing.
pub proof fn law_cancel_reports_resting_quantity(
    v: BookView,
    order_id: OrderId,
    subaccount: SubaccountId,
)
    requires
        v.wf(),
    ensures
        ({
            let (w, e) = cancel(v, order_id, subaccount);
            if v.orders.contains_key(order_id.0) && v.orders[order_id.0].subaccount == subaccount {
                let r = v.orders[order_id.0];
                let l = v.level_of(r.price);
                &&& e.len() == 1
                &&& e[0] matches Event::Cancelled { order_id: o, subaccount: s, remaining_qty: q }
                    && o == order_id && s == subaccount && q.value() == r.remaining
                &&& !w.orders.contains_key(order_id.0)
                &&& w.level_qty(r.side, l) + r.remaining == v.level_qty(r.side, l)
                &&& forall|side: Side, m: int|
                    0 <= m < LADDER_SIZE && (side != r.side || m != l) ==> #[trigger] w.level_qty(
                        side,
                        m,
                    ) == v.level_qty(side, m)
            } else {
                &&& w == v
                &&& e.len() == 1
                &&& e[0] is Rejected
            }
        }),
{
    let id = order_id.0;
    if v.orders.contains_key(id) && v.orders[id].subaccount == subaccount {
        let r = v.orders[id];
        let l = v.level_of(r.price);
        let q = v.levels(r.side)[l];
        let w = v.remove_order(id);
        v.lemma_remove_order(id);
        assert(q.contains(id));
        assert(v.levels_wf(r.side));
        assert(0 <= l < LADDER_SIZE);
        let k = q.index_of(id);
        assert(0 <= k < q.len() && q[k] == id);
        assert(q.no_duplicates());
        lemma_sum_remove(v.orders, q, k);
        assert(w.levels(r.side)[l] == q.remove(k));
        assert forall|side: Side, m: int|
            0 <= m < LADDER_SIZE && (side != r.side || m != l) implies #[trigger] w.level_qty(
            side,
            m,
        ) == v.level_qty(side, m) by {
            let qm = v.levels(side)[m];
            assert(v.levels_wf(side));
            assert(w.levels(side)[m] == qm);
            assert forall|j: int| 0 <= j < qm.len() implies w.orders[#[trigger] qm[j]].remaining
                == v.orders[qm[j]].remaining by {
                assert(v.orders.contains_key(v.levels(side)[m][j]));
                if qm[j] == id {
                    assert(v.orders[qm[j]].side == side);
                    assert(v.level_of(v.orders[qm[j]].price) == m);
                }
            }
            crate::model::lemma_sum_remaining_frame(v.orders, w.orders, qm);
        }
    }
}

} // verus!

//! Price-time priority: the order in which a side's resting orders meet an
//! incoming order, and the proof that matching follows it.
use crate::events::Event;
use crate::ladder::{best_of, is_best_level, lemma_best_of, level_price};
use crate::model::{
    cancelled, lemma_opposite, match_taker, min, opposite, stops_before, BookView, Resting, Taker,
};
use crate::types::{OrderId, Qty, SelfTradeMode, Side};
use vstd::prelude::*;

verus! {

broadcast use crate::types::group_types;

/// The ids queued at levels `from..` of `levels`: lowest level first, each
/// level oldest first.
pub open spec fn queued_upward(levels: Seq<Seq<u64>>, from: int) -> Seq<u64>
    decreases levels.len() - from,
{
    if from < 0 || from >= levels.len() {
        Seq::empty()
    } else {
        levels[from] + queued_upward(levels, from + 1)
    }
}

/// The ids queued at the levels below `n` of `levels`: highest level first,
/// each level oldest first.
pub open spec fn queued_downward(levels: Seq<Seq<u64>>, n: int) -> Seq<u64>
    decreases n,
{
    if n <= 0 {
        Seq::empty()
    } else {
        levels[n - 1] + queued_downward(levels, n - 1)
    }
}

/// The resting orders of `side` in price-time priority: best price first
/// (highest for bids, lowest for asks) and, within a price, oldest first.
pub open spec fn priority_order(side: Side, levels: Seq<Seq<u64>>) -> Seq<u64> {
    match side {
        Side::Bid => queued_downward(levels, levels.len() as int),
        Side::Ask => queued_upward(levels, 0),
    }
}

/// The resting order an event reports as met by the order `taker`: the
/// maker of a trade, or an order other than `taker` that was cancelled.
pub open spec fn maker_of(e: Event, taker: OrderId) -> Seq<u64> {
    match e {
        Event::Trade { maker_order_id, .. } => seq![maker_order_id.0],
        Event::Cancelled { order_id, .. } => if order_id != taker {
            seq![order_id.0]
        } else {
            Seq::empty()
        },
        _ => Seq::empty(),
    }
}

/// The resting orders `events` report as met by the order `taker`, in the
/// order reported.
pub open spec fn met_makers(events: Seq<Event>, taker: OrderId) -> Seq<u64>
    decreases events.len(),
{
    if events.len() == 0 {
        Seq::empty()
    } else {
        maker_of(events[0], taker) + met_makers(events.drop_first(), taker)
    }
}

/// Every trade in `events` fills a maker resting in `orders`, at the
/// maker's price.
pub open spec fn at_maker_prices(events: Seq<Event>, orders: Map<u64, Resting>) -> bool {
    forall|k: int|
        0 <= k < events.len() ==> match #[trigger] events[k] {
            Event::Trade { maker_order_id, price, .. } => orders.contains_key(maker_order_id.0)
                && orders[maker_order_id.0].price == price,
            _ => true,
        }
}

proof fn lemma_upward_skip(levels: Seq<Seq<u64>>, from: int, b: int)
    requires
        0 <= from <= b <= levels.len(),
        forall|l: int| from <= l < b ==> (#[trigger] levels[l]).len() == 0,
    ensures
        queued_upward(levels, from) == queued_upward(levels, b),
    decreases b - from,
{
    if from < b {
        lemma_upward_skip(levels, from + 1, b);
        assert(levels[from] + queued_upward(levels, from + 1) =~= queued_upward(levels, from + 1));
    }
}

proof fn lemma_upward_frame(a: Seq<Seq<u64>>, b: Seq<Seq<u64>>, from: int)
    requires
        0 <= from,
        a.len() == b.len(),
        forall|l: int| from <= l < a.len() ==> #[trigger] a[l] == b[l],
    ensures
        queued_upward(a, from) == queued_upward(b, from),
    decreases a.len() - from,
{
    if from < a.len() {
        lemma_upward_frame(a, b, from + 1);
    }
}

proof fn lemma_downward_skip(levels: Seq<Seq<u64>>, n: int, b: int)
    requires
        0 <= b < n <= levels.len(),
        forall|l: int| b < l < n ==> (#[trigger] levels[l]).len() == 0,
    ensures
        queued_downward(levels, n) == queued_downward(levels, b + 1),
    decreases n,
{
    if n > b + 1 {
        lemma_downward_skip(levels, n - 1, b);
        assert(levels[n - 1] + queued_downward(levels, n - 1) =~= queued_downward(levels, n - 1));
    }
}

proof fn lemma_downward_frame(a: Seq<Seq<u64>>, b: Seq<Seq<u64>>, n: int)
    requires
        n <= a.len(),
        n <= b.len(),
        forall|l: int| 0 <= l < n ==> #[trigger] a[l] == b[l],
    ensures
        queued_downward(a, n) == queued_downward(b, n),
    decreases n,
{
    if n > 0 {
        lemma_downward_frame(a, b, n - 1);
    }
}

/// The first order in priority is the oldest of the best level, and taking
/// it off that level takes it off the front of the priority order.
proof fn lemma_priority_head(side: Side, levels: Seq<Seq<u64>>, b: int)
    requires
        best_of(side, levels) == Some(b),
    ensures
        priority_order(side, levels).len() > 0,
        priority_order(side, levels)[0] == levels[b][0],
        priority_order(side, levels.update(b, levels[b].drop_first())) == priority_order(
            side,
            levels,
        ).drop_first(),
{
    lemma_best_of(side, levels);
    assert(is_best_level(side, levels, b));
    let q = levels[b];
    let w = levels.update(b, q.drop_first());
    match side {
        Side::Ask => {
            lemma_upward_skip(levels, 0, b);
            assert forall|l: int| 0 <= l < b implies (#[trigger] w[l]).len() == 0 by {
                assert(levels[l].len() == 0 || levels[l].len() > 0);
            }
            lemma_upward_skip(w, 0, b);
            assert forall|l: int| b + 1 <= l < w.len() implies #[trigger] w[l] == levels[l] by {}
            lemma_upward_frame(w, levels, b + 1);
            let rest = queued_upward(levels, b + 1);
            assert((q + rest).drop_first() =~= q.drop_first() + rest);
            assert((q + rest)[0] == q[0]);
        },
        Side::Bid => {
            let n = levels.len() as int;
            lemma_downward_skip(levels, n, b);
            assert forall|l: int| b < l < n implies (#[trigger] w[l]).len() == 0 by {
                assert(levels[l].len() == 0 || levels[l].len() > 0);
            }
            lemma_downward_skip(w, n, b);
            assert forall|l: int| 0 <= l < b implies #[trigger] w[l] == levels[l] by {}
            lemma_downward_frame(w, levels, b);
            let rest = queued_downward(levels, b);
            assert((q + rest).drop_first() =~= q.drop_first() + rest);
            assert((q + rest)[0] == q[0]);
        },
    }
}

proof fn lemma_prefix_cons(x: u64, s: Seq<u64>, p: Seq<u64>)
    requires
        p.len() > 0,
        p[0] == x,
        s.is_prefix_of(p.drop_first()),
    ensures
        (seq![x] + s).is_prefix_of(p),
{
    let c = seq![x] + s;
    assert(c =~= p.subrange(0, c.len() as int)) by {
        assert forall|k: int| 0 <= k < c.len() implies c[k] == p[k] by {
            if k > 0 {
                assert(c[k] == s[k - 1]);
                assert(s[k - 1] == p.drop_first()[k - 1]);
            }
        }
    }
}

pub proof fn lemma_met_makers_concat(a: Seq<Event>, b: Seq<Event>, taker: OrderId)
    ensures
        met_makers(a + b, taker) == met_makers(a, taker) + met_makers(b, taker),
    decreases a.len(),
{
    if a.len() > 0 {
        lemma_met_makers_concat(a.drop_first(), b, taker);
        assert((a + b).drop_first() =~= a.drop_first() + b);
        assert((a + b)[0] == a[0]);
        assert(maker_of(a[0], taker) + (met_makers(a.drop_first(), taker) + met_makers(b, taker))
            =~= (maker_of(a[0], taker) + met_makers(a.drop_first(), taker)) + met_makers(b, taker));
    } else {
        assert(a + b =~= b);
        assert(met_makers(a, taker) + met_makers(b, taker) =~= met_makers(b, taker));
    }
}

pub proof fn lemma_met_makers_single(e: Event, taker: OrderId)
    ensures
        met_makers(seq![e], taker) == maker_of(e, taker),
{
    assert(seq![e].drop_first() =~= Seq::<Event>::empty());
    assert(met_makers(Seq::<Event>::empty(), taker) =~= Seq::<u64>::empty());
    assert(seq![e][0] == e);
    assert(maker_of(e, taker) + Seq::<u64>::empty() =~= maker_of(e, taker));
}

pub proof fn lemma_at_maker_prices_concat(
    a: Seq<Event>,
    b: Seq<Event>,
    orders: Map<u64, Resting>,
)
    requires
        at_maker_prices(a, orders),
        at_maker_prices(b, orders),
    ensures
        at_maker_prices(a + b, orders),
{
    let s = a + b;
    assert forall|k: int| 0 <= k < s.len() implies match #[trigger] s[k] {
        Event::Trade { maker_order_id, price, .. } => orders.contains_key(maker_order_id.0)
            && orders[maker_order_id.0].price == price,
        _ => true,
    } by {
        if k < a.len() {
            assert(s[k] == a[k]);
        } else {
            assert(s[k] == b[k - a.len()]);
        }
    }
}

/// The taker meets resting orders in price-time priority: the makers it
/// trades with or expires are the first orders of the opposite side, best
/// price first and oldest first within a price; and it trades with each at
/// the maker's price.
pub proof fn lemma_match_priority(v: BookView, t: Taker, remaining: i64)
    requires
        v.wf(),
        remaining >= 0,
        !v.orders.contains_key(t.order_id.0),
    ensures
        ({
            let m = match_taker(v, t, remaining);
            let opp = opposite(t.side);
            &&& met_makers(m.events, t.order_id).is_prefix_of(priority_order(opp, v.levels(opp)))
            &&& at_maker_prices(m.events, v.orders)
        }),
    decreases remaining + v.orders.dom().len(),
{
    let opp = opposite(t.side);
    lemma_opposite(t.side);
    let m = match_taker(v, t, remaining);
    let p = priority_order(opp, v.levels(opp));
    assert(met_makers(Seq::<Event>::empty(), t.order_id) =~= Seq::<u64>::empty());
    if remaining <= 0 || !v.orders.dom().finite() {
    } else {
        match v.best_level(opp) {
            None => {},
            Some(l) => {
                if stops_before(t.side, level_price(l, v.reference.value()), t.price.value()) {
                } else {
                    lemma_best_of(opp, v.levels(opp));
                    let q = v.levels(opp)[l];
                    let id = q[0];
                    assert(v.levels_wf(opp));
                    assert(v.orders.contains_key(v.levels(opp)[l][0]));
                    let maker = v.orders[id];
                    assert(v.orders.remove(id).dom() =~= v.orders.dom().remove(id));
                    assert(v.orders.insert(id, maker).dom() =~= v.orders.dom());
                    lemma_priority_head(opp, v.levels(opp), l);
                    assert(OrderId(id) != t.order_id);
                    let maker_cancel = cancelled(OrderId(id), maker.subaccount, maker.remaining);
                    let taker_cancel = cancelled(t.order_id, t.subaccount, remaining);
                    lemma_met_makers_single(maker_cancel, t.order_id);
                    lemma_met_makers_single(taker_cancel, t.order_id);
                    // Taking the maker off its level takes it off the front.
                    assert(v.remove_order(id).levels(opp) =~= v.levels(opp).update(
                        l,
                        q.drop_first(),
                    )) by {
                        assert(q.no_duplicates());
                        let k = q.index_of(id);
                        assert(0 <= k < q.len() && q[k] == id);
                        assert(k == 0);
                        assert(q.remove(0) =~= q.drop_first());
                    }
                    if maker.subaccount == t.subaccount {
                        match t.stp {
                            SelfTradeMode::ExpireTaker => {
                                assert(m.events =~= seq![taker_cancel]);
                            },
                            SelfTradeMode::ExpireMaker => {
                                let w = v.remove_order(id);
                                v.lemma_remove_order(id);
                                lemma_match_priority(w, t, remaining);
                                let rest = match_taker(w, t, remaining);
                                lemma_met_makers_concat(seq![maker_cancel], rest.events, t.order_id);
                                lemma_prefix_cons(id, met_makers(rest.events, t.order_id), p);
                                assert forall|k: int| 0 <= k < rest.events.len() implies match #[trigger] rest.events[k] {
                                    Event::Trade { maker_order_id, price, .. } => v.orders.contains_key(
                                        maker_order_id.0,
                                    ) && v.orders[maker_order_id.0].price == price,
                                    _ => true,
                                } by {
                                    assert(w.orders == v.orders.remove(id));
                                }
                                assert(at_maker_prices(seq![maker_cancel], v.orders)) by {
                                    assert(seq![maker_cancel][0] == maker_cancel);
                                }
                                lemma_at_maker_prices_concat(seq![maker_cancel], rest.events, v.orders);
                            },
                            SelfTradeMode::ExpireBoth => {
                                assert(m.events =~= seq![maker_cancel] + seq![taker_cancel]);
                                lemma_met_makers_concat(seq![maker_cancel], seq![taker_cancel], t.order_id);
                                assert(Seq::<u64>::empty().is_prefix_of(p.drop_first()));
                                lemma_prefix_cons(id, Seq::<u64>::empty(), p);
                                assert(seq![id] + Seq::<u64>::empty() =~= seq![id]);
                            },
                        }
                    } else {
                        let fill = min(remaining, maker.remaining);
                        let trade = Event::Trade {
                            maker_order_id: OrderId(id),
                            taker_order_id: t.order_id,
                            maker_subaccount: maker.subaccount,
                            taker_subaccount: t.subaccount,
                            price: maker.price,
                            qty: Qty::from_value(fill),
                        };
                        lemma_met_makers_single(trade, t.order_id);
                        assert(at_maker_prices(seq![trade], v.orders)) by {
                            assert(seq![trade][0] == trade);
                        }
                        if fill == maker.remaining {
                            let w = v.remove_order(id);
                            v.lemma_remove_order(id);
                            lemma_match_priority(w, t, (remaining - fill) as i64);
                            let rest = match_taker(w, t, (remaining - fill) as i64);
                            lemma_met_makers_concat(seq![trade], rest.events, t.order_id);
                            lemma_prefix_cons(id, met_makers(rest.events, t.order_id), p);
                            assert forall|k: int| 0 <= k < rest.events.len() implies match #[trigger] rest.events[k] {
                                Event::Trade { maker_order_id, price, .. } => v.orders.contains_key(
                                    maker_order_id.0,
                                ) && v.orders[maker_order_id.0].price == price,
                                _ => true,
                            } by {
                                assert(w.orders == v.orders.remove(id));
                            }
                            lemma_at_maker_prices_concat(seq![trade], rest.events, v.orders);
                        } else {
                            let w = v.reduce_order(id, fill);
                            let rest = match_taker(w, t, (remaining - fill) as i64);
                            assert(remaining - fill == 0);
                            assert(rest.events =~= Seq::<Event>::empty());
                            lemma_met_makers_concat(seq![trade], rest.events, t.order_id);
                            assert(Seq::<u64>::empty().is_prefix_of(p.drop_first()));
                            lemma_prefix_cons(id, Seq::<u64>::empty(), p);
                            assert(seq![id] + Seq::<u64>::empty() =~= seq![id]);
                            lemma_at_maker_prices_concat(seq![trade], rest.events, v.orders);
                        }
                    }
                }
            },
        }
    }
}

} // verus!

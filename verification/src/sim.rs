use crate::events::{Event, RejectReason};
use crate::generator::{default_config, GeneratorConfig, OpKind};
use crate::types::{Qty, Side};
use vstd::prelude::*;

verus! {

broadcast use crate::types::group_types;

/// The parameters of a simulation run.
#[derive(Debug, Clone, Copy)]
pub struct SimConfig {
    pub gen_cfg: GeneratorConfig,
    pub seed: u64,
    /// Number of operations to run.
    pub steps: usize,
    /// Order pool capacity; it must cover the peak of live orders.
    pub capacity: usize,
}

impl Default for SimConfig {
    fn default() -> (r: Self)
        ensures
            r == (SimConfig {
                gen_cfg: default_config(),
                seed: 0xC0FFEE,
                steps: 1_000_000,
                capacity: 100_000,
            }),
    {
        SimConfig {
            gen_cfg: GeneratorConfig::default(),
            seed: 0xC0FFEE,
            steps: 1_000_000,
            capacity: 100_000,
        }
    }
}

/// Counts over a run of the simulation.
#[derive(Debug, Clone, Copy)]
pub struct SimStats {
    pub steps: usize,
    pub trades: u64,
    pub traded_qty: i64,
    pub accepted: u64,
    pub cancelled: u64,
    pub rejected: u64,
    /// Cancels of orders that were filled or never rested.
    pub rejected_not_found: u64,
    /// Orders priced off the ladder.
    pub rejected_out_of_range: u64,
}

impl Default for SimStats {
    fn default() -> (r: Self)
        ensures
            r == (SimStats {
                steps: 0,
                trades: 0,
                traded_qty: 0,
                accepted: 0,
                cancelled: 0,
                rejected: 0,
                rejected_not_found: 0,
                rejected_out_of_range: 0,
            }),
    {
        SimStats {
            steps: 0,
            trades: 0,
            traded_qty: 0,
            accepted: 0,
            cancelled: 0,
            rejected: 0,
            rejected_not_found: 0,
            rejected_out_of_range: 0,
        }
    }
}

/// What a sequence of events adds to the counts.
pub struct Tally {
    pub trades: int,
    pub traded_qty: int,
    pub accepted: int,
    pub cancelled: int,
    pub rejected: int,
    pub rejected_not_found: int,
    pub rejected_out_of_range: int,
}

pub open spec fn tally(events: Seq<Event>) -> Tally
    decreases events.len(),
{
    if events.len() == 0 {
        Tally {
            trades: 0,
            traded_qty: 0,
            accepted: 0,
            cancelled: 0,
            rejected: 0,
            rejected_not_found: 0,
            rejected_out_of_range: 0,
        }
    } else {
        let t = tally(events.drop_last());
        match events.last() {
            Event::Trade { qty, .. } => Tally {
                trades: t.trades + 1,
                traded_qty: t.traded_qty + qty.value(),
                ..t
            },
            Event::Accepted { .. } => Tally { accepted: t.accepted + 1, ..t },
            Event::Cancelled { .. } => Tally { cancelled: t.cancelled + 1, ..t },
            Event::Rejected { reason, .. } => Tally {
                rejected: t.rejected + 1,
                rejected_not_found: t.rejected_not_found + if reason == RejectReason::OrderNotFound {
                    1int
                } else {
                    0
                },
                rejected_out_of_range: t.rejected_out_of_range + if reason
                    == RejectReason::PriceOutOfRange {
                    1int
                } else {
                    0
                },
                ..t
            },
        }
    }
}

/// Every trade reports a positive quantity.
pub open spec fn trades_positive(events: Seq<Event>) -> bool {
    forall|k: int|
        0 <= k < events.len() ==> match #[trigger] events[k] {
            Event::Trade { qty, .. } => qty.wf(),
            _ => true,
        }
}

pub proof fn lemma_tally_monotone(events: Seq<Event>, n: int)
    requires
        0 <= n <= events.len(),
        trades_positive(events),
    ensures
        ({
            let a = tally(events.take(n));
            let b = tally(events);
            &&& 0 <= a.trades <= b.trades
            &&& 0 <= a.traded_qty <= b.traded_qty
            &&& 0 <= a.accepted <= b.accepted
            &&& 0 <= a.cancelled <= b.cancelled
            &&& 0 <= a.rejected <= b.rejected
            &&& 0 <= a.rejected_not_found <= b.rejected_not_found
            &&& 0 <= a.rejected_out_of_range <= b.rejected_out_of_range
        }),
    decreases events.len() - n,
{
    if n < events.len() {
        lemma_tally_monotone(events, n + 1);
        assert(events.take(n + 1).drop_last() =~= events.take(n));
        assert(events.take(n + 1).last() == events[n]);
        let tk = events.take(n);
        assert forall|k: int| 0 <= k < tk.len() implies match #[trigger] tk[k] {
            Event::Trade { qty, .. } => qty.wf(),
            _ => true,
        } by {
            assert(tk[k] == events[k]);
        }
        lemma_tally_nonneg(tk);
        let e = events[n];
        assert(match e {
            Event::Trade { qty, .. } => qty.wf(),
            _ => true,
        });
    } else {
        assert(events.take(n) =~= events);
        lemma_tally_nonneg(events);
    }
}

pub proof fn lemma_tally_nonneg(events: Seq<Event>)
    requires
        trades_positive(events),
    ensures
        ({
            let t = tally(events);
            &&& 0 <= t.trades
            &&& 0 <= t.traded_qty
            &&& 0 <= t.accepted
            &&& 0 <= t.cancelled
            &&& 0 <= t.rejected
            &&& 0 <= t.rejected_not_found
            &&& 0 <= t.rejected_out_of_range
        }),
    decreases events.len(),
{
    if events.len() > 0 {
        let d = events.drop_last();
        assert forall|k: int| 0 <= k < d.len() implies match #[trigger] d[k] {
            Event::Trade { qty, .. } => qty.wf(),
            _ => true,
        } by {
            assert(d[k] == events[k]);
        }
        lemma_tally_nonneg(d);
        assert(events[events.len() - 1] == events.last());
    }
}

/// Events that are trades.
pub open spec fn is_trade() -> spec_fn(Event) -> bool {
    |e: Event| e is Trade
}

/// Events that accept an order.
pub open spec fn is_accepted() -> spec_fn(Event) -> bool {
    |e: Event| e is Accepted
}

/// Events that report an order cancelled.
pub open spec fn is_cancelled() -> spec_fn(Event) -> bool {
    |e: Event| e is Cancelled
}

/// Events that refuse an operation.
pub open spec fn is_rejected() -> spec_fn(Event) -> bool {
    |e: Event| e is Rejected
}

/// Refusals of a cancel whose order was not found.
pub open spec fn is_not_found() -> spec_fn(Event) -> bool {
    |e: Event| e matches Event::Rejected { reason: RejectReason::OrderNotFound, .. }
}

/// Refusals of an order priced off the ladder.
pub open spec fn is_out_of_range() -> spec_fn(Event) -> bool {
    |e: Event| e matches Event::Rejected { reason: RejectReason::PriceOutOfRange, .. }
}

proof fn lemma_filter_step(s: Seq<Event>, p: spec_fn(Event) -> bool)
    requires
        s.len() > 0,
    ensures
        s.filter(p).len() == s.drop_last().filter(p).len() + if p(s.last()) {
            1int
        } else {
            0int
        },
{
    reveal(Seq::filter);
}

proof fn lemma_traded_push(s: Seq<Event>, e: Event)
    ensures
        crate::model::traded(s.push(e)) == crate::model::traded(s) + crate::model::trade_qty(e),
    decreases s.len(),
{
    if s.len() == 0 {
        assert(s.push(e) =~= seq![e] + s);
        crate::model::lemma_traded_prepend(e, s);
        assert(crate::model::traded(s) == 0);
    } else {
        lemma_traded_push(s.drop_first(), e);
        assert(s.push(e).drop_first() =~= s.drop_first().push(e));
        assert(s.push(e)[0] == s[0]);
    }
}

/// Law: recording events counts each kind of event once: the trades, the
/// acceptances, the cancels and the refusals grow by the number of events
/// of that kind (refusals for a missing order and for a price off the
/// ladder by theirs), and the traded quantity by the sum of the trades'
/// quantities.
pub proof fn law_record_counts_each_event(events: Seq<Event>)
    ensures
        tally(events).trades == events.filter(is_trade()).len(),
        tally(events).accepted == events.filter(is_accepted()).len(),
        tally(events).cancelled == events.filter(is_cancelled()).len(),
        tally(events).rejected == events.filter(is_rejected()).len(),
        tally(events).rejected_not_found == events.filter(is_not_found()).len(),
        tally(events).rejected_out_of_range == events.filter(is_out_of_range()).len(),
        tally(events).traded_qty == crate::model::traded(events),
    decreases events.len(),
{
    if events.len() == 0 {
        reveal(Seq::filter);
    } else {
        let d = events.drop_last();
        law_record_counts_each_event(d);
        lemma_filter_step(events, is_trade());
        lemma_filter_step(events, is_accepted());
        lemma_filter_step(events, is_cancelled());
        lemma_filter_step(events, is_rejected());
        lemma_filter_step(events, is_not_found());
        lemma_filter_step(events, is_out_of_range());
        lemma_traded_push(d, events.last());
        assert(d.push(events.last()) =~= events);
    }
}

impl SimStats {
    /// Adds the events of one step to the counts, and returns the number of
    /// trades and the quantity traded in that step.
    pub fn record(&mut self, events: &Vec<Event>) -> (r: (u64, i64))
        requires
            trades_positive(events@),
            old(self).trades + tally(events@).trades <= u64::MAX,
            old(self).traded_qty + tally(events@).traded_qty <= i64::MAX,
            old(self).traded_qty >= 0,
            old(self).accepted + tally(events@).accepted <= u64::MAX,
            old(self).cancelled + tally(events@).cancelled <= u64::MAX,
            old(self).rejected + tally(events@).rejected <= u64::MAX,
            old(self).rejected_not_found + tally(events@).rejected_not_found <= u64::MAX,
            old(self).rejected_out_of_range + tally(events@).rejected_out_of_range <= u64::MAX,
        ensures
            ({
                let t = tally(events@);
                &&& final(self).steps == old(self).steps
                &&& final(self).trades == old(self).trades + t.trades
                &&& final(self).traded_qty == old(self).traded_qty + t.traded_qty
                &&& final(self).accepted == old(self).accepted + t.accepted
                &&& final(self).cancelled == old(self).cancelled + t.cancelled
                &&& final(self).rejected == old(self).rejected + t.rejected
                &&& final(self).rejected_not_found == old(self).rejected_not_found + t.rejected_not_found
                &&& final(self).rejected_out_of_range == old(self).rejected_out_of_range
                    + t.rejected_out_of_range
                &&& r.0 == t.trades
                &&& r.1 == t.traded_qty
            }),
            final(self).trades == old(self).trades + events@.filter(is_trade()).len(),
            final(self).accepted == old(self).accepted + events@.filter(is_accepted()).len(),
            final(self).cancelled == old(self).cancelled + events@.filter(is_cancelled()).len(),
            final(self).rejected == old(self).rejected + events@.filter(is_rejected()).len(),
            final(self).rejected_not_found == old(self).rejected_not_found + events@.filter(
                is_not_found(),
            ).len(),
            final(self).rejected_out_of_range == old(self).rejected_out_of_range + events@.filter(
                is_out_of_range(),
            ).len(),
            final(self).traded_qty == old(self).traded_qty + crate::model::traded(events@),
    {
        proof {
            law_record_counts_each_event(events@);
        }
        let ghost s0 = *self;
        let mut step_trades: u64 = 0;
        let mut step_qty: i64 = 0;
        let mut i: usize = 0;
        while i < events.len()
            invariant
                0 <= i <= events@.len(),
                trades_positive(events@),
                s0.trades + tally(events@).trades <= u64::MAX,
                s0.traded_qty + tally(events@).traded_qty <= i64::MAX,
                s0.traded_qty >= 0,
                s0.accepted + tally(events@).accepted <= u64::MAX,
                s0.cancelled + tally(events@).cancelled <= u64::MAX,
                s0.rejected + tally(events@).rejected <= u64::MAX,
                s0.rejected_not_found + tally(events@).rejected_not_found <= u64::MAX,
                s0.rejected_out_of_range + tally(events@).rejected_out_of_range <= u64::MAX,
                ({
                    let t = tally(events@.take(i as int));
                    &&& self.steps == s0.steps
                    &&& self.trades == s0.trades + t.trades
                    &&& self.traded_qty == s0.traded_qty + t.traded_qty
                    &&& self.accepted == s0.accepted + t.accepted
                    &&& self.cancelled == s0.cancelled + t.cancelled
                    &&& self.rejected == s0.rejected + t.rejected
                    &&& self.rejected_not_found == s0.rejected_not_found + t.rejected_not_found
                    &&& self.rejected_out_of_range == s0.rejected_out_of_range
                        + t.rejected_out_of_range
                    &&& step_trades == t.trades
                    &&& step_qty == t.traded_qty
                }),
            decreases events@.len() - i,
        {
            proof {
                lemma_tally_monotone(events@, i + 1);
                lemma_tally_monotone(events@, i as int);
                assert(events@.take(i + 1).drop_last() =~= events@.take(i as int));
                assert(events@.take(i + 1).last() == events@[i as int]);
            }
            match &events[i] {
                Event::Trade { qty, .. } => {
                    step_trades += 1;
                    step_qty += qty.raw();
                    self.trades += 1;
                    self.traded_qty += qty.raw();
                },
                Event::Accepted { .. } => self.accepted += 1,
                Event::Cancelled { .. } => self.cancelled += 1,
                Event::Rejected { reason, .. } => {
                    self.rejected += 1;
                    match reason {
                        RejectReason::OrderNotFound => self.rejected_not_found += 1,
                        RejectReason::PriceOutOfRange => self.rejected_out_of_range += 1,
                        _ => {},
                    }
                },
            }
            i += 1;
        }
        proof {
            assert(events@.take(events@.len() as int) =~= events@);
        }
        (step_trades, step_qty)
    }
}

/// The CSV tag of a side.
pub fn side_tag(side: Side) -> (r: &'static str)
    ensures
        r@ == match side {
            Side::Bid => "bid"@,
            Side::Ask => "ask"@,
        },
{
    match side {
        Side::Bid => "bid",
        Side::Ask => "ask",
    }
}

/// The CSV tag of an operation kind.
pub fn op_kind_tag(kind: OpKind) -> (r: &'static str)
    ensures
        r@ == match kind {
            OpKind::PassivePlace => "passive"@,
            OpKind::AggressivePlace => "aggressive"@,
            OpKind::Cancel => "cancel"@,
        },
{
    match kind {
        OpKind::PassivePlace => "passive",
        OpKind::AggressivePlace => "aggressive",
        OpKind::Cancel => "cancel",
    }
}

} // verus!

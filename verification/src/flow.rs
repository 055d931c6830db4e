//! What the order flow does over a run: a generator answering the top of
//! the book step after step.
use crate::generator::{initial, next_op_in_domain, next_op_spec, GeneratorConfig, GeneratorView, OpKind};
use crate::ops::Op;
use crate::types::{OrderId, SubaccountId};
use vstd::prelude::*;

verus! {

/// The top of the book a step is given: best bid and best ask, in ticks.
pub type Top = (Option<i64>, Option<i64>);

/// The generator after answering `tops` in turn, and the operations with
/// their kinds that it returned.
pub open spec fn run_flow(g: GeneratorView, tops: Seq<Top>) -> (GeneratorView, Seq<(Op, OpKind)>)
    decreases tops.len(),
{
    if tops.len() == 0 {
        (g, Seq::empty())
    } else {
        let (h, ops) = run_flow(g, tops.drop_last());
        let (h2, op, kind) = next_op_spec(h, tops.last().0, tops.last().1);
        (h2, ops.push((op, kind)))
    }
}

/// Every step of the run stays within what `next_op` handles.
pub open spec fn run_in_domain(g: GeneratorView, tops: Seq<Top>) -> bool
    decreases tops.len(),
{
    tops.len() == 0 || (run_in_domain(g, tops.drop_last()) && next_op_in_domain(
        run_flow(g, tops.drop_last()).0,
        tops.last().0,
        tops.last().1,
    ))
}

/// The number of placements among `ops`.
pub open spec fn places(ops: Seq<(Op, OpKind)>) -> nat
    decreases ops.len(),
{
    if ops.len() == 0 {
        0
    } else {
        places(ops.drop_last()) + if ops.last().0 is Place {
            1nat
        } else {
            0nat
        }
    }
}

/// The orders pending a cancel after `ops`, starting from `start`: passive
/// placements add their order and owner, cancels take them away.
pub open spec fn pending(start: Set<(OrderId, SubaccountId)>, ops: Seq<(Op, OpKind)>) -> Set<
    (OrderId, SubaccountId),
>
    decreases ops.len(),
{
    if ops.len() == 0 {
        start
    } else {
        let p = pending(start, ops.drop_last());
        match ops.last() {
            (Op::Place { order_id, subaccount, .. }, OpKind::PassivePlace) => p.insert(
                (order_id, subaccount),
            ),
            (Op::Cancel { order_id, subaccount }, _) => p.remove((order_id, subaccount)),
            _ => p,
        }
    }
}

/// What a generator keeps: its live orders are distinct, no more than the
/// ids handed out, and their ids were all handed out already.
pub open spec fn flow_inv(g: GeneratorView) -> bool {
    &&& g.live.no_duplicates()
    &&& g.live.len() <= g.next_id
    &&& forall|k: int| 0 <= k < g.live.len() ==> (#[trigger] g.live[k]).0.0 < g.next_id
}

proof fn lemma_swap_remove<A>(s: Seq<A>, i: int)
    requires
        s.no_duplicates(),
        0 <= i < s.len(),
    ensures
        s.update(i, s.last()).drop_last().no_duplicates(),
        forall|x: A| #[trigger]
            s.update(i, s.last()).drop_last().contains(x) <==> s.contains(x) && x != s[i],
        forall|k: int|
            0 <= k < s.len() - 1 ==> #[trigger] s.update(i, s.last()).drop_last()[k] == s[if k
                == i {
                s.len() - 1
            } else {
                k
            }],
{
    let t = s.update(i, s.last()).drop_last();
    let n = s.len();
    let f = |k: int|
        if k == i {
            n - 1
        } else {
            k
        };
    assert forall|k: int| 0 <= k < n - 1 implies #[trigger] t[k] == s[f(k)] by {}
    assert forall|a: int, b: int| 0 <= a < t.len() && 0 <= b < t.len() && a != b implies t[a]
        != t[b] by {
        assert(t[a] == s[f(a)] && t[b] == s[f(b)]);
    }
    assert forall|x: A| t.contains(x) <==> s.contains(x) && x != s[i] by {
        if t.contains(x) {
            let k = choose|k: int| 0 <= k < t.len() && t[k] == x;
            assert(t[k] == s[f(k)]);
            assert(f(k) != i);
        }
        if s.contains(x) && x != s[i] {
            let k = choose|k: int| 0 <= k < n && s[k] == x;
            assert(k != i);
            if k == n - 1 {
                assert(t[i] == x);
            } else {
                assert(t[k] == x);
            }
        }
    }
}

/// One step keeps the invariant, counts its placement, and moves the
/// pending orders as `pending` says.
proof fn lemma_step(g: GeneratorView, top: Top)
    requires
        flow_inv(g),
        next_op_in_domain(g, top.0, top.1),
    ensures
        ({
            let (h, op, kind) = next_op_spec(g, top.0, top.1);
            &&& flow_inv(h)
            &&& h.cfg == g.cfg
            &&& h.next_id == g.next_id + if op is Place {
                1int
            } else {
                0int
            }
            &&& (op is Cancel <==> kind == OpKind::Cancel)
            &&& op is Place ==> op->Place_order_id == OrderId(g.next_id)
            &&& op is Cancel ==> g.live.contains((op->Cancel_order_id, op->Cancel_subaccount))
            &&& forall|x: (OrderId, SubaccountId)|
                #[trigger] h.live.contains(x) <==> pending(
                    g.live.to_set(),
                    seq![(op, kind)],
                ).contains(x)
        }),
{
    let (h, op, kind) = next_op_spec(g, top.0, top.1);
    let one = seq![(op, kind)];
    assert(one.drop_last() =~= Seq::<(Op, OpKind)>::empty());
    assert(one.last() == (op, kind));
    let d = crate::generator::step_draws(g, crate::generator::two_sided(top.0, top.1));
    if d.cancel {
        let i = d.index;
        assert(g.live.len() > 0);
        assert(0 <= i < g.live.len()) by {
            let x = crate::rng::mix(
                crate::rng::next_state(crate::rng::next_state(crate::rng::next_state(g.rng))),
            );
            let m = g.live.len() as u64;
            assert(m as int == g.live.len());
            assert(x % m < m);
        }
        lemma_swap_remove(g.live, i);
        assert(g.live.contains(g.live[i]));
        assert forall|k: int| 0 <= k < h.live.len() implies (#[trigger] h.live[k]).0.0
            < h.next_id by {
            if k == i {
                assert(h.live[k] == g.live[g.live.len() - 1]);
            } else {
                assert(h.live[k] == g.live[k]);
            }
        }
    } else {
        let pair = (OrderId(g.next_id), op->Place_subaccount);
        if !d.aggressive {
            assert(!g.live.contains(pair)) by {
                if g.live.contains(pair) {
                    let k = choose|k: int| 0 <= k < g.live.len() && g.live[k] == pair;
                    assert(g.live[k].0.0 < g.next_id);
                }
            }
            assert(h.live == g.live.push(pair));
            assert forall|a: int, b: int| 0 <= a < h.live.len() && 0 <= b < h.live.len() && a
                != b implies h.live[a] != h.live[b] by {
                if a < g.live.len() && b < g.live.len() {
                } else if a < g.live.len() {
                    assert(g.live.contains(h.live[a]));
                } else {
                    assert(g.live.contains(h.live[b]));
                }
            }
            assert forall|x: (OrderId, SubaccountId)| #[trigger] h.live.contains(x) <==> g.live.contains(x) || x == pair by {
                if h.live.contains(x) {
                    let k = choose|k: int| 0 <= k < h.live.len() && h.live[k] == x;
                    if k < g.live.len() {
                        assert(g.live[k] == x);
                    }
                }
                if g.live.contains(x) {
                    let k = choose|k: int| 0 <= k < g.live.len() && g.live[k] == x;
                    assert(h.live[k] == x);
                }
                if x == pair {
                    assert(h.live[g.live.len() as int] == x);
                }
            }
            assert forall|k: int| 0 <= k < h.live.len() implies (#[trigger] h.live[k]).0.0
                < h.next_id by {
                if k < g.live.len() {
                    assert(h.live[k] == g.live[k]);
                }
            }
        }
    }
    let start = g.live.to_set();
    assert(pending(start, one.drop_last()) == start);
    if d.cancel {
        let pair = g.live[d.index];
        assert(op == Op::Cancel { order_id: pair.0, subaccount: pair.1 });
        assert(pending(start, one) == start.remove(pair));
    } else if d.aggressive {
        assert(pending(start, one) == start);
        assert(h.live == g.live);
    } else {
        assert(pending(start, one) == start.insert((OrderId(g.next_id), op->Place_subaccount)));
    }
}


/// Law: a run is fixed by the configuration, the seed and the tops it is
/// given: two generators made by `Generator::new` with the same
/// configuration and seed return the same operations, step by step.
pub proof fn law_same_seed_same_stream(
    cfg: GeneratorConfig,
    seed: u64,
    tops: Seq<Top>,
    g1: GeneratorView,
    g2: GeneratorView,
)
    requires
        g1 == initial(cfg, seed),
        g2 == initial(cfg, seed),
    ensures
        run_flow(g1, tops) == run_flow(g2, tops),
{
}

/// A run cut after `n` steps is the first `n` steps of the run, and its
/// next step is the `n`-th operation.
proof fn lemma_run_prefix(g: GeneratorView, tops: Seq<Top>, n: int)
    requires
        0 <= n <= tops.len(),
    ensures
        run_flow(g, tops).1.len() == tops.len(),
        run_flow(g, tops.take(n)).1 == run_flow(g, tops).1.take(n),
        run_in_domain(g, tops) ==> run_in_domain(g, tops.take(n)),
        n < tops.len() ==> {
            let (h, op, kind) = next_op_spec(
                run_flow(g, tops.take(n)).0,
                tops[n].0,
                tops[n].1,
            );
            &&& run_flow(g, tops).1[n] == (op, kind)
            &&& run_in_domain(g, tops) ==> next_op_in_domain(
                run_flow(g, tops.take(n)).0,
                tops[n].0,
                tops[n].1,
            )
        },
    decreases tops.len(),
{
    if tops.len() > 0 {
        let t = tops.drop_last();
        if n == tops.len() {
            assert(tops.take(n) =~= tops);
            lemma_run_prefix(g, t, 0);
        } else {
            lemma_run_prefix(g, t, n);
            assert(tops.take(n) =~= t.take(n));
            if n == t.len() {
                assert(t.take(n) =~= t);
            } else {
                assert(tops[n] == t[n]);
            }
            let ops = run_flow(g, t).1;
            let (h, op, kind) = next_op_spec(run_flow(g, t).0, tops.last().0, tops.last().1);
            assert(run_flow(g, tops).1 == ops.push((op, kind)));
            assert(ops.push((op, kind)).take(n) =~= ops.take(n));
        }
    } else {
        assert(tops.take(n) =~= tops);
    }
}

/// The invariant, the id count and the pending orders along a run.
proof fn lemma_run(g: GeneratorView, tops: Seq<Top>)
    requires
        flow_inv(g),
        run_in_domain(g, tops),
    ensures
        ({
            let (h, ops) = run_flow(g, tops);
            &&& flow_inv(h)
            &&& h.cfg == g.cfg
            &&& h.next_id == g.next_id + places(ops)
            &&& forall|x: (OrderId, SubaccountId)|
                #[trigger] h.live.contains(x) <==> pending(g.live.to_set(), ops).contains(x)
        }),
    decreases tops.len(),
{
    if tops.len() > 0 {
        let t = tops.drop_last();
        lemma_run(g, t);
        let (h, ops) = run_flow(g, t);
        lemma_step(h, tops.last());
        let (h2, op, kind) = next_op_spec(h, tops.last().0, tops.last().1);
        let ops2 = ops.push((op, kind));
        assert(ops2.drop_last() =~= ops);
        assert(ops2.last() == (op, kind));
        let one = seq![(op, kind)];
        assert(one.drop_last() =~= Seq::<(Op, OpKind)>::empty());
        assert(pending(h.live.to_set(), Seq::<(Op, OpKind)>::empty()) == h.live.to_set());
        assert(h.live.to_set() =~= pending(g.live.to_set(), ops)) by {
            assert forall|x: (OrderId, SubaccountId)| h.live.to_set().contains(x) <==> pending(g.live.to_set(), ops).contains(x) by {
                assert(h.live.contains(x) == h.live.to_set().contains(x));
            }
        }
    }
}

/// Law: along a run from `Generator::new`, the `n`-th placement carries
/// order id `n` (one more than the placements before it) and expires the
/// taker on a self-trade; a step returns a cancel exactly when its kind is
/// `Cancel`, and it cancels an order that an earlier step placed passively
/// and no earlier step cancelled, with that order's owner.
pub proof fn law_flow_ids_and_cancels(cfg: GeneratorConfig, seed: u64, tops: Seq<Top>)
    requires
        run_in_domain(initial(cfg, seed), tops),
    ensures
        ({
            let ops = run_flow(initial(cfg, seed), tops).1;
            &&& ops.len() == tops.len()
            &&& forall|n: int|
                0 <= n < ops.len() ==> {
                    &&& ((#[trigger] ops[n]).0 is Cancel <==> ops[n].1 == OpKind::Cancel)
                    &&& ops[n].0 is Place ==> ops[n].0->Place_order_id == OrderId(
                        (1 + places(ops.take(n))) as u64,
                    ) && ops[n].0->stp == crate::types::SelfTradeMode::ExpireTaker
                    &&& ops[n].0 is Cancel ==> pending(Set::empty(), ops.take(n)).contains(
                        (ops[n].0->Cancel_order_id, ops[n].0->Cancel_subaccount),
                    )
                }
        }),
{
    let g = initial(cfg, seed);
    let ops = run_flow(g, tops).1;
    assert(g.live.to_set() =~= Set::<(OrderId, SubaccountId)>::empty());
    lemma_run_prefix(g, tops, tops.len() as int);
    assert forall|n: int| 0 <= n < ops.len() implies {
        &&& ((#[trigger] ops[n]).0 is Cancel <==> ops[n].1 == OpKind::Cancel)
        &&& ops[n].0 is Place ==> ops[n].0->Place_order_id == OrderId((1 + places(ops.take(n))) as u64)
            && ops[n].0->stp == crate::types::SelfTradeMode::ExpireTaker
        &&& ops[n].0 is Cancel ==> pending(Set::empty(), ops.take(n)).contains(
            (ops[n].0->Cancel_order_id, ops[n].0->Cancel_subaccount),
        )
    } by {
        lemma_run_prefix(g, tops, n);
        let tn = tops.take(n);
        lemma_run(g, tn);
        let h = run_flow(g, tn).0;
        lemma_step(h, tops[n]);
    }
}

} // verus!

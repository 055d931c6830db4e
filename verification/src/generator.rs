//! The synthetic order flow: a latent mid price walks at random, limit
//! orders are quoted around it (some aggressive, crossing the spread), and
//! some earlier passive orders are cancelled. Every choice is a draw from
//! the deterministic generator, so a seed fixes the whole stream.
use crate::ops::Op;
use crate::rng::{mix, next_state, Rng};
use crate::types::{OrderId, Price, Qty, SelfTradeMode, Side, SubaccountId};
use vstd::prelude::*;

verus! {

broadcast use crate::types::group_types;

/// What the synthetic order flow produced at one step.
#[derive(Debug, Clone, Copy, PartialEq, Eq, Structural)]
pub enum OpKind {
    PassivePlace,
    AggressivePlace,
    Cancel,
}

pub open spec fn clamp(x: int, lo: int, hi: int) -> int {
    if x < lo {
        lo
    } else if x > hi {
        hi
    } else {
        x
    }
}

/// Half of `x`, rounded toward zero as integer division does.
pub open spec fn half_toward_zero(x: int) -> int {
    if x >= 0 {
        x / 2
    } else {
        -((-x) / 2)
    }
}

/// The latent mid after one step of the walk: moved by `step`, held in the
/// corridor `start_mid ± drift_clamp`, and, when the book quotes both sides,
/// held within `leash` of the book's mid.
pub open spec fn walked_mid(
    mid: i64,
    step: i64,
    start_mid: i64,
    drift_clamp: i64,
    book: Option<(i64, i64)>,
    leash: i64,
) -> int {
    let m = clamp(mid + step, start_mid - drift_clamp, start_mid + drift_clamp);
    match book {
        Some((b, a)) => {
            let book_mid = half_toward_zero(a + b);
            clamp(m, book_mid - leash, book_mid + leash)
        },
        None => m,
    }
}

fn clamp_i64(x: i64, lo: i64, hi: i64) -> (r: i64)
    requires
        lo <= hi,
    ensures
        r == clamp(x as int, lo as int, hi as int),
{
    if x < lo {
        lo
    } else if x > hi {
        hi
    } else {
        x
    }
}

/// One step of the latent mid price; `best_bid` and `best_ask` are the top
/// of the book in ticks, where the book has them.
pub fn walk_mid(
    mid: i64,
    step: i64,
    start_mid: i64,
    drift_clamp: i64,
    best_bid: Option<i64>,
    best_ask: Option<i64>,
    leash: i64,
) -> (r: i64)
    requires
        i64::MIN <= mid + step <= i64::MAX,
        drift_clamp >= 0,
        i64::MIN <= start_mid - drift_clamp,
        start_mid + drift_clamp <= i64::MAX,
        best_bid is Some && best_ask is Some ==> {
            let a = best_ask->0;
            let b = best_bid->0;
            &&& leash >= 0
            &&& i64::MIN <= a + b <= i64::MAX
            &&& i64::MIN <= half_toward_zero(a + b) - leash
            &&& half_toward_zero(a + b) + leash <= i64::MAX
        },
    ensures
        r == walked_mid(
            mid,
            step,
            start_mid,
            drift_clamp,
            if best_bid is Some && best_ask is Some {
                Some((best_bid->0, best_ask->0))
            } else {
                None
            },
            leash,
        ),
{
    let lo = start_mid - drift_clamp;
    let hi = start_mid + drift_clamp;
    let mut m = clamp_i64(mid + step, lo, hi);
    if let (Some(b), Some(a)) = (best_bid, best_ask) {
        let book_mid = (a + b) / 2;
        proof {
            assert(book_mid == half_toward_zero(a + b));
        }
        m = clamp_i64(m, book_mid - leash, book_mid + leash);
    }
    m
}

/// The tick a quote goes to: an aggressive order reaches `distance` ticks
/// past the mid into the other side, a passive one stays `distance` ticks
/// back on its own side.
pub open spec fn quote_tick(side: Side, mid: i64, aggressive: bool, distance: i64) -> int {
    match (side, aggressive) {
        (Side::Bid, true) | (Side::Ask, false) => mid + distance,
        (Side::Ask, true) | (Side::Bid, false) => mid - distance,
    }
}

/// The price of a quote, never below one tick.
pub fn quote_price(side: Side, mid: i64, aggressive: bool, distance: i64) -> (r: Price)
    requires
        i64::MIN <= quote_tick(side, mid, aggressive, distance) <= i64::MAX,
    ensures
        r.value() == if quote_tick(side, mid, aggressive, distance) >= 1 {
            quote_tick(side, mid, aggressive, distance)
        } else {
            1
        },
        r.wf(),
{
    let p = match (side, aggressive) {
        (Side::Bid, true) | (Side::Ask, false) => mid + distance,
        (Side::Ask, true) | (Side::Bid, false) => mid - distance,
    };
    let p = if p >= 1 {
        p
    } else {
        1
    };
    Price::new(p).unwrap()
}

/// The parameters of the order flow. Probabilities are counted in units of
/// `1 / UNIT_SCALE`: an event of probability `p` happens when a draw of
/// `Rng::unit_bits` falls below `p`.
#[derive(Debug, Clone, Copy)]
pub struct GeneratorConfig {
    /// Starting (and central) mid, in ticks; the book's reference price.
    pub start_mid: i64,
    /// The mid is held in `[start_mid - drift_clamp, start_mid + drift_clamp]`.
    pub drift_clamp: i64,
    /// Each step moves the mid by `range(-walk_step, walk_step)` ticks.
    pub walk_step: i64,
    /// Probability of a bid.
    pub side_bias: u64,
    /// Probability that an order is aggressive (it crosses the spread).
    pub aggressive_fraction: u64,
    /// Probability of a cancel, when there is something to cancel.
    pub cancel_fraction: u64,
    /// A passive quote stays `range(0, passive_depth)` ticks behind the mid.
    pub passive_depth: i64,
    /// An aggressive quote reaches `range(1, aggressive_reach)` ticks past the mid.
    pub aggressive_reach: i64,
    /// Base order size: `range(1, base_qty)`.
    pub base_qty: i64,
    /// Probability of a large order.
    pub big_qty_fraction: u64,
    /// Extra size of a large order: `range(base_qty, base_qty + big_qty_extra)`.
    pub big_qty_extra: i64,
    /// Subaccounts are `1..=n_subaccounts`.
    pub n_subaccounts: u64,
    /// The mid is kept within `leash` ticks of the book's own mid.
    pub leash: i64,
}

/// The standard order flow: a mid of 10 000 ticks drifting at most 400,
/// balanced sides, 35% aggressive orders, 15% cancels and 5% large orders.
pub open spec fn default_config() -> GeneratorConfig {
    GeneratorConfig {
        start_mid: 10_000,
        drift_clamp: 400,
        walk_step: 2,
        side_bias: 0x10_0000_0000_0000,
        aggressive_fraction: 0xB_3333_3333_3333,
        cancel_fraction: 0x4_CCCC_CCCC_CCCD,
        passive_depth: 8,
        aggressive_reach: 3,
        base_qty: 20,
        big_qty_fraction: 0x1_9999_9999_999A,
        big_qty_extra: 300,
        n_subaccounts: 4,
        leash: 12,
    }
}

impl Default for GeneratorConfig {
    fn default() -> (r: Self)
        ensures
            r == default_config(),
    {
        GeneratorConfig {
            start_mid: 10_000,
            drift_clamp: 400,
            walk_step: 2,
            side_bias: 0x10_0000_0000_0000,
            aggressive_fraction: 0xB_3333_3333_3333,
            cancel_fraction: 0x4_CCCC_CCCC_CCCD,
            passive_depth: 8,
            aggressive_reach: 3,
            base_qty: 20,
            big_qty_fraction: 0x1_9999_9999_999A,
            big_qty_extra: 300,
            n_subaccounts: 4,
            leash: 12,
        }
    }
}

/// The state of the order flow: its parameters, the state of its random
/// generator, the latent mid, the next order id, and the passive orders
/// placed so far with their owners (the candidates for cancels).
pub struct GeneratorView {
    pub cfg: GeneratorConfig,
    pub rng: u64,
    pub mid: i64,
    pub next_id: u64,
    pub live: Seq<(OrderId, SubaccountId)>,
}

/// The state `Generator::new(cfg, seed)` starts from.
pub open spec fn initial(cfg: GeneratorConfig, seed: u64) -> GeneratorView {
    GeneratorView {
        cfg,
        rng: seed ^ crate::rng::GOLDEN_GAMMA,
        mid: cfg.start_mid,
        next_id: 1,
        live: Seq::empty(),
    }
}

pub struct Generator {
    cfg: GeneratorConfig,
    rng: Rng,
    mid: i64,
    next_id: u64,
    live: Vec<(OrderId, SubaccountId)>,
}

impl View for Generator {
    type V = GeneratorView;

    closed spec fn view(&self) -> GeneratorView {
        GeneratorView {
            cfg: self.cfg,
            rng: self.rng@,
            mid: self.mid,
            next_id: self.next_id,
            live: self.live@,
        }
    }
}

/// A draw of `range(lo, hi)` from generator state `s`: the state after it,
/// and the value.
pub open spec fn draw_range(s: u64, lo: i64, hi: i64) -> (u64, int) {
    let s1 = next_state(s);
    (s1, lo + mix(s1) % ((hi - lo + 1) as u64))
}

/// A draw of `below(n)` from generator state `s`.
pub open spec fn draw_below(s: u64, n: nat) -> (u64, int) {
    let s1 = next_state(s);
    (s1, (mix(s1) % (n as u64)) as int)
}

/// A draw of `chance_scaled(p)` from generator state `s`.
pub open spec fn draw_chance(s: u64, p: u64) -> (u64, bool) {
    let s1 = next_state(s);
    (s1, mix(s1) >> 11u64 < p)
}

/// The top of the book when it quotes both sides.
pub open spec fn two_sided(best_bid: Option<i64>, best_ask: Option<i64>) -> Option<(i64, i64)> {
    if best_bid is Some && best_ask is Some {
        Some((best_bid->0, best_ask->0))
    } else {
        None
    }
}

/// The draws of one step of the order flow, in the order they are made.
pub struct StepDraws {
    /// The walk of the mid, and the mid after it.
    pub step: int,
    pub mid: int,
    /// A cancel was drawn, and of which live order.
    pub cancel: bool,
    pub index: int,
    /// Otherwise: the side (a bid or not), the subaccount, the base size,
    /// whether the order is large and by how much, whether it is aggressive
    /// and how far from the mid it is quoted.
    pub bid: bool,
    pub subaccount: int,
    pub base: int,
    pub big: bool,
    pub extra: int,
    pub aggressive: bool,
    pub distance: int,
    /// The generator state after the step.
    pub state: u64,
}

pub open spec fn step_draws(g: GeneratorView, book: Option<(i64, i64)>) -> StepDraws {
    let c = g.cfg;
    let (s1, step) = draw_range(g.rng, (-c.walk_step) as i64, c.walk_step);
    let mid = walked_mid(g.mid, step as i64, c.start_mid, c.drift_clamp, book, c.leash);
    let (s2, cancel) = if g.live.len() > 0 {
        draw_chance(s1, c.cancel_fraction)
    } else {
        (s1, false)
    };
    let (s3, index) = draw_below(s2, g.live.len());
    let (s4, bid) = draw_chance(s2, c.side_bias);
    let s5 = next_state(s4);
    let subaccount = 1 + mix(s5) % c.n_subaccounts;
    let (s6, base) = draw_range(s5, 1, c.base_qty);
    let (s7, big) = draw_chance(s6, c.big_qty_fraction);
    let (s8, extra) = if big {
        draw_range(s7, c.base_qty, (c.base_qty + c.big_qty_extra) as i64)
    } else {
        (s7, 0)
    };
    let (s9, aggressive) = draw_chance(s8, c.aggressive_fraction);
    let (s10, distance) = if aggressive {
        draw_range(s9, 1, c.aggressive_reach)
    } else {
        draw_range(s9, 0, c.passive_depth)
    };
    StepDraws {
        step,
        mid,
        cancel,
        index,
        bid,
        subaccount,
        base,
        big,
        extra,
        aggressive,
        distance,
        state: if cancel {
            s3
        } else {
            s10
        },
    }
}

/// One step of the order flow: the generator after it, the operation, and
/// its kind. With live orders, a cancel of one of them (drawn at random,
/// the last live order taking its place) may come first; otherwise a new
/// order is quoted around the walked mid, and remembered if passive.
pub open spec fn next_op_spec(g: GeneratorView, best_bid: Option<i64>, best_ask: Option<i64>) -> (
    GeneratorView,
    Op,
    OpKind,
) {
    let d = step_draws(g, two_sided(best_bid, best_ask));
    let mid = d.mid as i64;
    if d.cancel {
        let (order_id, subaccount) = g.live[d.index];
        (
            GeneratorView {
                rng: d.state,
                mid,
                live: g.live.update(d.index, g.live.last()).drop_last(),
                ..g
            },
            Op::Cancel { order_id, subaccount },
            OpKind::Cancel,
        )
    } else {
        let side = if d.bid {
            Side::Bid
        } else {
            Side::Ask
        };
        let order_id = OrderId(g.next_id);
        let subaccount = SubaccountId(d.subaccount as u64);
        let qty = if d.big {
            d.base + d.extra
        } else {
            d.base
        };
        let tick = quote_tick(side, mid, d.aggressive, d.distance as i64);
        let price = Price::from_value(
            (if tick >= 1 {
                tick
            } else {
                1
            }) as i64,
        );
        (
            GeneratorView {
                rng: d.state,
                mid,
                next_id: (g.next_id + 1) as u64,
                live: if d.aggressive {
                    g.live
                } else {
                    g.live.push((order_id, subaccount))
                },
                ..g
            },
            Op::Place {
                order_id,
                subaccount,
                side,
                price,
                qty: Qty::from_value(qty as i64),
                stp: SelfTradeMode::ExpireTaker,
            },
            if d.aggressive {
                OpKind::AggressivePlace
            } else {
                OpKind::PassivePlace
            },
        )
    }
}

/// The steps the order flow takes without arithmetic overflow, an empty
/// range or a division by zero: the walk, and, where a new order is drawn,
/// its subaccount, size, id and price.
pub open spec fn next_op_in_domain(
    g: GeneratorView,
    best_bid: Option<i64>,
    best_ask: Option<i64>,
) -> bool {
    let c = g.cfg;
    let book = two_sided(best_bid, best_ask);
    let d = step_draws(g, book);
    &&& 0 <= c.walk_step
    &&& 2 * c.walk_step < i64::MAX
    &&& i64::MIN <= g.mid + d.step <= i64::MAX
    &&& 0 <= c.drift_clamp
    &&& i64::MIN <= c.start_mid - c.drift_clamp
    &&& c.start_mid + c.drift_clamp <= i64::MAX
    &&& book matches Some((b, a)) ==> {
        &&& 0 <= c.leash
        &&& i64::MIN <= a + b <= i64::MAX
        &&& i64::MIN <= half_toward_zero(a + b) - c.leash
        &&& half_toward_zero(a + b) + c.leash <= i64::MAX
    }
    &&& !d.cancel ==> {
        &&& c.n_subaccounts > 0
        &&& 1 <= c.base_qty
        &&& d.big ==> {
            &&& 0 <= c.big_qty_extra < i64::MAX
            &&& c.base_qty + c.big_qty_extra <= i64::MAX
            &&& d.base + d.extra <= i64::MAX
        }
        &&& g.next_id < u64::MAX
        &&& d.aggressive ==> 1 <= c.aggressive_reach
        &&& !d.aggressive ==> 0 <= c.passive_depth < i64::MAX
        &&& i64::MIN <= quote_tick(
            if d.bid {
                Side::Bid
            } else {
                Side::Ask
            },
            d.mid as i64,
            d.aggressive,
            d.distance as i64,
        ) <= i64::MAX
    }
}

impl Generator {
    pub fn new(cfg: GeneratorConfig, seed: u64) -> (r: Self)
        ensures
            r@ == initial(cfg, seed),
    {
        Self { cfg, rng: Rng::new(seed), mid: cfg.start_mid, next_id: 1, live: Vec::new() }
    }

    /// The latent mid, in ticks.
    pub fn mid(&self) -> (r: i64)
        ensures
            r == self@.mid,
    {
        self.mid
    }

    fn fresh_id(&mut self) -> (r: OrderId)
        requires
            old(self).next_id < u64::MAX,
        ensures
            r == OrderId(old(self).next_id),
            final(self).next_id == old(self).next_id + 1,
            final(self).cfg == old(self).cfg,
            final(self).rng == old(self).rng,
            final(self).mid == old(self).mid,
            final(self).live == old(self).live,
    {
        let id = OrderId(self.next_id);
        self.next_id = self.next_id + 1;
        id
    }

    fn sample_qty(&mut self) -> (r: i64)
        requires
            1 <= old(self).cfg.base_qty,
            ({
                let (s, base) = draw_range(old(self).rng@, 1, old(self).cfg.base_qty);
                let (s7, big) = draw_chance(s, old(self).cfg.big_qty_fraction);
                big ==> {
                    &&& 0 <= old(self).cfg.big_qty_extra < i64::MAX
                    &&& old(self).cfg.base_qty + old(self).cfg.big_qty_extra <= i64::MAX
                    &&& base + draw_range(
                        s7,
                        old(self).cfg.base_qty,
                        (old(self).cfg.base_qty + old(self).cfg.big_qty_extra) as i64,
                    ).1 <= i64::MAX
                }
            }),
        ensures
            ({
                let c = old(self).cfg;
                let (s6, base) = draw_range(old(self).rng@, 1, c.base_qty);
                let (s7, big) = draw_chance(s6, c.big_qty_fraction);
                let (s8, extra) = if big {
                    draw_range(s7, c.base_qty, (c.base_qty + c.big_qty_extra) as i64)
                } else {
                    (s7, 0)
                };
                &&& final(self).rng@ == s8
                &&& r == if big {
                    base + extra
                } else {
                    base
                }
                &&& 1 <= r
            }),
            final(self).cfg == old(self).cfg,
            final(self).mid == old(self).mid,
            final(self).next_id == old(self).next_id,
            final(self).live == old(self).live,
    {
        let base = self.rng.range(1, self.cfg.base_qty);
        if self.rng.chance_scaled(self.cfg.big_qty_fraction) {
            let extra = self.rng.range(self.cfg.base_qty, self.cfg.base_qty + self.cfg.big_qty_extra);
            base + extra
        } else {
            base
        }
    }

    fn sample_subaccount(&mut self) -> (r: SubaccountId)
        requires
            old(self).cfg.n_subaccounts > 0,
        ensures
            final(self).rng@ == next_state(old(self).rng@),
            r.0 == 1 + mix(final(self).rng@) % old(self).cfg.n_subaccounts,
            final(self).cfg == old(self).cfg,
            final(self).mid == old(self).mid,
            final(self).next_id == old(self).next_id,
            final(self).live == old(self).live,
    {
        SubaccountId(1 + self.rng.next_u64() % self.cfg.n_subaccounts)
    }

    /// The next operation and its kind; `best_bid` and `best_ask` are the
    /// top of the book in ticks, where it has them.
    pub fn next_op(&mut self, best_bid: Option<i64>, best_ask: Option<i64>) -> (r: (Op, OpKind))
        requires
            next_op_in_domain(old(self)@, best_bid, best_ask),
        ensures
            (final(self)@, r.0, r.1) == next_op_spec(old(self)@, best_bid, best_ask),
    {
        let ghost g = self@;
        let ghost d = step_draws(g, two_sided(best_bid, best_ask));
        let step = self.rng.range(-self.cfg.walk_step, self.cfg.walk_step);
        self.mid = walk_mid(
            self.mid,
            step,
            self.cfg.start_mid,
            self.cfg.drift_clamp,
            best_bid,
            best_ask,
            self.cfg.leash,
        );
        assert(self.mid == d.mid);

        if !self.live.is_empty() && self.rng.chance_scaled(self.cfg.cancel_fraction) {
            let idx = self.rng.below(self.live.len());
            let (order_id, subaccount) = self.live.swap_remove(idx);
            assert(self@.live =~= g.live.update(d.index, g.live.last()).drop_last());
            return (Op::Cancel { order_id, subaccount }, OpKind::Cancel);
        }
        assert(!d.cancel);

        let side = if self.rng.chance_scaled(self.cfg.side_bias) {
            Side::Bid
        } else {
            Side::Ask
        };
        let subaccount = self.sample_subaccount();
        let qty = self.sample_qty();
        let order_id = self.fresh_id();

        let aggressive = self.rng.chance_scaled(self.cfg.aggressive_fraction);
        let (distance, kind) = if aggressive {
            (self.rng.range(1, self.cfg.aggressive_reach), OpKind::AggressivePlace)
        } else {
            (self.rng.range(0, self.cfg.passive_depth), OpKind::PassivePlace)
        };
        let price = quote_price(side, self.mid, aggressive, distance);
        let qty = Qty::new(qty).unwrap();

        if !aggressive {
            self.live.push((order_id, subaccount));
        }

        let op = Op::Place {
            order_id,
            subaccount,
            side,
            price,
            qty,
            stp: SelfTradeMode::ExpireTaker,
        };
        proof {
            // the price is the one quoted at the walked mid
            let tick = quote_tick(side, self.mid, aggressive, distance);
            let pv: int = if tick >= 1 {
                tick
            } else {
                1
            };
            assert(Price::from_value(pv as i64).value() == price.value());
        }
        (op, kind)
    }
}

/// Law: a placement labelled aggressive is quoted past the mid into the
/// other side (a bid above the mid, an ask below it, unless held at the
/// one-tick floor), and a placement labelled passive stays on its own side
/// of the mid (a bid at or below it, unless held at the floor; an ask at
/// or above it). Only passive placements become candidates for cancels, and
/// a cancel takes one of the candidates away.
pub proof fn law_quotes_match_their_kind(
    g: GeneratorView,
    best_bid: Option<i64>,
    best_ask: Option<i64>,
)
    requires
        next_op_in_domain(g, best_bid, best_ask),
        g.live.len() <= usize::MAX,
    ensures
        ({
            let (h, op, kind) = next_op_spec(g, best_bid, best_ask);
            match op {
                Op::Place { order_id, subaccount, side, price, .. } => {
                    &&& kind != OpKind::Cancel
                    &&& kind == OpKind::AggressivePlace ==> match side {
                        Side::Bid => price.value() >= h.mid + 1,
                        Side::Ask => price.value() <= h.mid - 1 || price.value() == 1,
                    }
                    &&& kind == OpKind::PassivePlace ==> match side {
                        Side::Bid => price.value() <= h.mid || price.value() == 1,
                        Side::Ask => price.value() >= h.mid,
                    }
                    &&& kind == OpKind::AggressivePlace ==> h.live == g.live
                    &&& kind == OpKind::PassivePlace ==> h.live == g.live.push(
                        (order_id, subaccount),
                    )
                },
                Op::Cancel { order_id, subaccount } => {
                    &&& kind == OpKind::Cancel
                    &&& g.live.contains((order_id, subaccount))
                    &&& h.live.len() + 1 == g.live.len()
                },
            }
        }),
{
    let d = step_draws(g, two_sided(best_bid, best_ask));
    if d.cancel {
        assert(g.live.len() > 0);
        let n = g.live.len() as u64;
        assert(n as int == g.live.len());
        let x = mix(next_state(next_state(next_state(g.rng))));
        assert(x % n < n);
        assert(0 <= d.index < g.live.len());
        assert(g.live.contains(g.live[d.index]));
    }
}

/// Law: the latent mid is held in its corridor while the book does not
/// quote both sides, and within the leash of the book's mid once it does.
pub proof fn law_mid_is_held(g: GeneratorView, best_bid: Option<i64>, best_ask: Option<i64>)
    requires
        next_op_in_domain(g, best_bid, best_ask),
    ensures
        ({
            let mid = next_op_spec(g, best_bid, best_ask).0.mid;
            match two_sided(best_bid, best_ask) {
                None => g.cfg.start_mid - g.cfg.drift_clamp <= mid <= g.cfg.start_mid
                    + g.cfg.drift_clamp,
                Some((b, a)) => half_toward_zero(a + b) - g.cfg.leash <= mid <= half_toward_zero(
                    a + b,
                ) + g.cfg.leash,
            }
        }),
{
}

} // verus!

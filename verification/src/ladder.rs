use crate::level::PriceLevel;
use crate::pool::{OrderHandle, OrderPool, PoolView};
use crate::types::{Price, Side};
use vstd::prelude::*;

verus! {

broadcast use crate::types::group_types;

pub const LADDER_SIZE: usize = 1024;

/// The ladder level of `price` for a ladder centred on `reference`.
pub open spec fn level_index(price: i64, reference: i64) -> int {
    price - reference + (LADDER_SIZE / 2) as int
}

/// `price` falls inside the ladder centred on `reference`.
pub open spec fn in_ladder(price: i64, reference: i64) -> bool {
    0 <= level_index(price, reference) < LADDER_SIZE as int
}

/// The price of ladder level `l` for a ladder centred on `reference`.
pub open spec fn level_price(l: int, reference: i64) -> int {
    reference + l - (LADDER_SIZE / 2) as int
}

/// The highest non-empty level below `n`.
pub open spec fn highest_nonempty<A>(levels: Seq<Seq<A>>, n: int) -> Option<int>
    decreases n,
{
    if n <= 0 {
        None
    } else if levels[n - 1].len() > 0 {
        Some(n - 1)
    } else {
        highest_nonempty(levels, n - 1)
    }
}

/// The lowest non-empty level at or above `from`.
pub open spec fn lowest_nonempty<A>(levels: Seq<Seq<A>>, from: int) -> Option<int>
    decreases levels.len() - from,
{
    if from >= levels.len() || from < 0 {
        None
    } else if levels[from].len() > 0 {
        Some(from)
    } else {
        lowest_nonempty(levels, from + 1)
    }
}

/// The best level of a side: the highest non-empty one for bids, the lowest
/// for asks.
pub open spec fn best_of<A>(side: Side, levels: Seq<Seq<A>>) -> Option<int> {
    match side {
        Side::Bid => highest_nonempty(levels, levels.len() as int),
        Side::Ask => lowest_nonempty(levels, 0),
    }
}

/// Level `b` is non-empty and no non-empty level is better for `side`.
pub open spec fn is_best_level<A>(side: Side, levels: Seq<Seq<A>>, b: int) -> bool {
    &&& 0 <= b < levels.len()
    &&& levels[b].len() > 0
    &&& forall|l: int|
        0 <= l < levels.len() && (#[trigger] levels[l]).len() > 0 ==> match side {
            Side::Bid => l <= b,
            Side::Ask => b <= l,
        }
}

pub proof fn lemma_highest<A>(levels: Seq<Seq<A>>, n: int)
    requires
        n <= levels.len(),
    ensures
        match highest_nonempty(levels, n) {
            Some(b) => 0 <= b < n && levels[b].len() > 0 && forall|l: int|
                b < l < n ==> (#[trigger] levels[l]).len() == 0,
            None => forall|l: int| 0 <= l < n ==> (#[trigger] levels[l]).len() == 0,
        },
    decreases n,
{
    if n > 0 {
        lemma_highest(levels, n - 1);
    }
}

pub proof fn lemma_lowest<A>(levels: Seq<Seq<A>>, from: int)
    requires
        0 <= from,
    ensures
        match lowest_nonempty(levels, from) {
            Some(b) => from <= b < levels.len() && levels[b].len() > 0 && forall|l: int|
                from <= l < b ==> (#[trigger] levels[l]).len() == 0,
            None => forall|l: int| from <= l < levels.len() ==> (#[trigger] levels[l]).len() == 0,
        },
    decreases levels.len() - from,
{
    if from < levels.len() {
        lemma_lowest(levels, from + 1);
    }
}

/// `best_of` is the unique best level, or `None` exactly when every level is empty.
pub proof fn lemma_best_of<A>(side: Side, levels: Seq<Seq<A>>)
    ensures
        match best_of(side, levels) {
            Some(b) => is_best_level(side, levels, b),
            None => forall|l: int| 0 <= l < levels.len() ==> (#[trigger] levels[l]).len() == 0,
        },
        forall|b: int| is_best_level(side, levels, b) ==> best_of(side, levels) == Some(b),
{
    match side {
        Side::Bid => lemma_highest(levels, levels.len() as int),
        Side::Ask => lemma_lowest(levels, 0),
    }
}

/// The best level depends on nothing but which levels are empty.
pub proof fn lemma_best_of_shape<A, B>(side: Side, a: Seq<Seq<A>>, b: Seq<Seq<B>>)
    requires
        a.len() == b.len(),
        forall|l: int| 0 <= l < a.len() ==> ((#[trigger] a[l]).len() == 0 <==> b[l].len() == 0),
    ensures
        best_of(side, a) == best_of(side, b),
{
    lemma_best_of(side, a);
    lemma_best_of(side, b);
    match best_of(side, a) {
        Some(x) => {
            assert forall|l: int| 0 <= l < b.len() && (#[trigger] b[l]).len() > 0 implies match side {
                Side::Bid => l <= x,
                Side::Ask => x <= l,
            } by {
                assert(a[l].len() > 0);
            }
            assert(is_best_level(side, b, x));
        },
        None => {
            match best_of(side, b) {
                Some(y) => {
                    assert(a[y].len() == 0);
                },
                None => {},
            }
        },
    }
}

pub fn price_to_index(price: Price, reference: Price) -> (r: Option<usize>)
    requires
        price.wf(),
        reference.wf(),
        level_index(price.value(), reference.value()) <= i64::MAX,
    ensures
        match r {
            Some(i) => in_ladder(price.value(), reference.value()) && i == level_index(
                price.value(),
                reference.value(),
            ),
            None => !in_ladder(price.value(), reference.value()),
        },
{
    let offset = price.raw() - reference.raw();
    let centered = offset + (LADDER_SIZE / 2) as i64;
    if centered < 0 || centered >= LADDER_SIZE as i64 {
        return None;
    }
    Some(centered as usize)
}

pub fn index_to_price(idx: usize, reference: Price) -> (r: Price)
    requires
        i64::MIN <= (idx as i64) - (LADDER_SIZE / 2) as int,
        0 < level_price(idx as i64 as int, reference.value()) <= i64::MAX,
    ensures
        r.value() == level_price(idx as i64 as int, reference.value()),
        r.wf(),
{
    let offset = idx as i64 - (LADDER_SIZE / 2) as i64;
    Price::new(reference.raw() + offset).unwrap()
}

/// One side of the book: a fixed array of price levels around a reference
/// price, with a cached index of the best non-empty level.
pub struct PriceLadder {
    levels: Vec<PriceLevel>,
    reference: Price,
    best: Option<u32>,
    side: Side,
    loc: Ghost<Map<u32, int>>,
}

impl PriceLadder {
    /// The queue of every level, as pool slots.
    pub closed spec fn queues(self) -> Seq<Seq<u32>> {
        Seq::new(self.levels@.len(), |l: int| self.levels@[l].ids())
    }

    /// The total quantity each level records.
    pub closed spec fn totals(self) -> Seq<i64> {
        Seq::new(self.levels@.len(), |l: int| self.levels@[l].total())
    }

    pub closed spec fn level(self, l: int) -> PriceLevel {
        self.levels@[l]
    }

    /// The level of every slot the ladder holds.
    pub closed spec fn slots(self) -> Map<u32, int> {
        self.loc@
    }

    pub closed spec fn reference_price(self) -> Price {
        self.reference
    }

    pub closed spec fn side_of(self) -> Side {
        self.side
    }

    pub open spec fn best_index(self) -> Option<int> {
        best_of(self.side_of(), self.queues())
    }

    pub closed spec fn wf(self, pool: PoolView) -> bool {
        let levels = self.levels@;
        let loc = self.loc@;
        &&& levels.len() == LADDER_SIZE
        &&& self.reference.wf()
        &&& forall|l: int| 0 <= l < LADDER_SIZE ==> (#[trigger] levels[l]).wf(pool)
        &&& forall|l: int, k: int|
            0 <= l < LADDER_SIZE && 0 <= k < levels[l].ids().len() ==> {
                &&& loc.contains_key(#[trigger] levels[l].ids()[k])
                &&& loc[levels[l].ids()[k]] == l
            }
        &&& forall|i: u32|
            #[trigger] loc.contains_key(i) ==> 0 <= loc[i] < LADDER_SIZE && levels[loc[i]].ids().contains(i)
        &&& forall|l: int|
            0 <= l < LADDER_SIZE && (#[trigger] levels[l]).ids().len() > 0 ==> 0 < level_price(
                l,
                self.reference.value(),
            ) <= i64::MAX
        &&& self.best == match best_of(self.side, self.queues()) {
            Some(b) => Some(b as u32),
            None => None::<u32>,
        }
    }

    pub proof fn lemma_wf(self, pool: PoolView)
        requires
            self.wf(pool),
        ensures
            self.queues().len() == LADDER_SIZE,
            self.totals().len() == LADDER_SIZE,
            self.reference_price().wf(),
            forall|l: int|
                0 <= l < LADDER_SIZE ==> (#[trigger] self.level(l)).wf(pool) && self.level(l).ids()
                    == self.queues()[l] && self.level(l).total() == self.totals()[l],
            forall|l: int, k: int|
                0 <= l < LADDER_SIZE && 0 <= k < self.queues()[l].len() ==> {
                    &&& pool.occupied(#[trigger] self.queues()[l][k] as int)
                    &&& self.slots().contains_key(self.queues()[l][k])
                    &&& self.slots()[self.queues()[l][k]] == l
                },
            forall|l: int| 0 <= l < LADDER_SIZE ==> (#[trigger] self.queues()[l]).no_duplicates(),
            forall|i: u32|
                #[trigger] self.slots().contains_key(i) ==> 0 <= self.slots()[i] < LADDER_SIZE
                    && self.queues()[self.slots()[i]].contains(i),
            forall|l: int|
                0 <= l < LADDER_SIZE && (#[trigger] self.queues()[l]).len() > 0 ==> 0 < level_price(
                    l,
                    self.reference_price().value(),
                ) <= i64::MAX,
    {
        assert forall|l: int, k: int|
            0 <= l < LADDER_SIZE && 0 <= k < self.queues()[l].len() implies {
            &&& pool.occupied(#[trigger] self.queues()[l][k] as int)
            &&& self.slots().contains_key(self.queues()[l][k])
            &&& self.slots()[self.queues()[l][k]] == l
        } by {
            assert(self.levels@[l].wf(pool));
            self.levels@[l].lemma_wf(pool);
            assert(self.queues()[l] == self.levels@[l].ids());
            assert(pool.occupied(self.levels@[l].ids()[k] as int));
        }
        assert forall|l: int| 0 <= l < LADDER_SIZE implies (#[trigger] self.queues()[l]).no_duplicates() by {
            assert(self.levels@[l].wf(pool));
            self.levels@[l].lemma_wf(pool);
        }
        assert forall|l: int|
            0 <= l < LADDER_SIZE && (#[trigger] self.queues()[l]).len() > 0 implies 0 < level_price(
            l,
            self.reference_price().value(),
        ) <= i64::MAX by {
            assert(self.queues()[l] == self.levels@[l].ids());
        }
    }

    /// A well-formed ladder stays so in any pool that keeps the occupancy and
    /// the links of the orders it holds.
    pub proof fn lemma_frame(self, p1: PoolView, p2: PoolView)
        requires
            self.wf(p1),
            forall|i: u32|
                #[trigger] self.slots().contains_key(i) ==> {
                    &&& p2.occupied(i as int)
                    &&& p2.order(i as int).prev == p1.order(i as int).prev
                    &&& p2.order(i as int).next == p1.order(i as int).next
                },
        ensures
            self.wf(p2),
    {
        let levels = self.levels@;
        assert forall|l: int| 0 <= l < LADDER_SIZE implies (#[trigger] levels[l]).wf(p2) by {
            assert(levels[l].wf(p1));
            assert forall|k: int| 0 <= k < levels[l].ids().len() implies {
                &&& p2.occupied(#[trigger] levels[l].ids()[k] as int)
                &&& p2.order(levels[l].ids()[k] as int).prev == p1.order(
                    levels[l].ids()[k] as int,
                ).prev
                &&& p2.order(levels[l].ids()[k] as int).next == p1.order(
                    levels[l].ids()[k] as int,
                ).next
            } by {
                assert(self.slots().contains_key(levels[l].ids()[k]));
            }
            levels[l].lemma_frame(p1, p2);
        }
    }

    pub fn new(reference: Price, side: Side) -> (r: Self)
        requires
            reference.wf(),
        ensures
            forall|pool: PoolView| r.wf(pool),
            r.queues() == Seq::new(LADDER_SIZE as nat, |l: int| Seq::<u32>::empty()),
            r.totals() == Seq::new(LADDER_SIZE as nat, |l: int| 0i64),
            r.slots() == Map::<u32, int>::empty(),
            r.reference_price() == reference,
            r.side_of() == side,
    {
        let mut levels: Vec<PriceLevel> = Vec::with_capacity(LADDER_SIZE);
        while levels.len() < LADDER_SIZE
            invariant
                levels@.len() <= LADDER_SIZE,
                forall|j: int|
                    0 <= j < levels@.len() ==> (#[trigger] levels@[j]).ids() == Seq::<u32>::empty()
                        && levels@[j].total() == 0 && forall|pool: PoolView| levels@[j].wf(pool),
            decreases LADDER_SIZE - levels@.len(),
        {
            levels.push(PriceLevel::new());
        }
        let r = Self { levels, reference, best: None, side, loc: Ghost(Map::empty()) };
        proof {
            assert(r.queues() =~= Seq::new(LADDER_SIZE as nat, |l: int| Seq::<u32>::empty()));
            assert(r.totals() =~= Seq::new(LADDER_SIZE as nat, |l: int| 0i64));
            lemma_best_of(side, r.queues());
            assert forall|pool: PoolView| r.wf(pool) by {
                assert forall|l: int| 0 <= l < LADDER_SIZE implies (#[trigger] r.levels@[l]).wf(
                    pool,
                ) by {}
                assert(best_of(side, r.queues()) is None) by {
                    if best_of(side, r.queues()) is Some {
                        let b = best_of(side, r.queues())->0;
                        assert(r.queues()[b].len() == 0);
                    }
                }
            }
        }
        r
    }

    fn is_better(&self, new_idx: u32, current_best: u32) -> (r: bool)
        ensures
            r == match self.side_of() {
                Side::Bid => new_idx > current_best,
                Side::Ask => new_idx < current_best,
            },
    {
        match self.side {
            Side::Bid => new_idx > current_best,
            Side::Ask => new_idx < current_best,
        }
    }

    pub fn add_order(
        &mut self,
        handle: OrderHandle,
        price: Price,
        qty: i64,
        pool: &mut OrderPool,
    ) -> (r: Result<(), ()>)
        requires
            old(pool).wf(),
            old(self).wf(old(pool)@),
            price.wf(),
            level_index(price.value(), old(self).reference_price().value()) <= i64::MAX,
            old(pool)@.occupied(handle.slot() as int),
            old(pool)@.order(handle.slot() as int).prev is None,
            old(pool)@.order(handle.slot() as int).next is None,
            !old(self).slots().contains_key(handle.slot()),
            in_ladder(price.value(), old(self).reference_price().value()) ==> i64::MIN <= old(
                self,
            ).totals()[level_index(price.value(), old(self).reference_price().value())] + qty
                <= i64::MAX,
        ensures
            final(pool).wf(),
            final(self).wf(final(pool)@),
            final(self).reference_price() == old(self).reference_price(),
            final(self).side_of() == old(self).side_of(),
            !in_ladder(price.value(), old(self).reference_price().value()) ==> r is Err
                && *final(self) == *old(self) && final(pool)@ == old(pool)@,
            in_ladder(price.value(), old(self).reference_price().value()) ==> {
                let l = level_index(price.value(), old(self).reference_price().value());
                &&& r is Ok
                &&& final(self).queues() == old(self).queues().update(
                    l,
                    old(self).queues()[l].push(handle.slot()),
                )
                &&& final(self).totals() == old(self).totals().update(
                    l,
                    (old(self).totals()[l] + qty) as i64,
                )
                &&& final(self).slots() == old(self).slots().insert(handle.slot(), l)
                &&& old(pool)@.links_changed_only(
                    final(pool)@,
                    old(self).queues()[l].to_set().insert(handle.slot()),
                )
            },
    {
        let idx = match price_to_index(price, self.reference) {
            Some(i) => i,
            None => {
                return Err(());
            },
        };
        let ghost p0 = pool@;
        let ghost old_self = *self;
        proof {
            old_self.lemma_wf(p0);
            assert(self.levels@[idx as int].wf(p0));
            assert(self.levels@[idx as int].ids() == old_self.queues()[idx as int]);
            assert(!self.levels@[idx as int].ids().contains(handle.slot())) by {
                if self.levels@[idx as int].ids().contains(handle.slot()) {
                    let k = choose|k: int| 0 <= k < self.levels@[idx as int].ids().len() && self.levels@[idx as int].ids()[k] == handle.slot();
                    assert(self.loc@.contains_key(self.levels@[idx as int].ids()[k]));
                }
            }
        }
        self.levels[idx].add_order(handle, qty, pool);
        let idx_u32 = idx as u32;
        match self.best {
            None => self.best = Some(idx_u32),
            Some(current) => {
                if self.is_better(idx_u32, current) {
                    self.best = Some(idx_u32);
                }
            },
        }
        self.loc = Ghost(self.loc@.insert(handle.slot(), idx as int));
        proof {
            let p1 = pool@;
            let l = idx as int;
            let touched = old_self.queues()[l].to_set().insert(handle.slot());
            let levels = self.levels@;
            assert(self.queues() =~= old_self.queues().update(
                l,
                old_self.queues()[l].push(handle.slot()),
            ));
            assert(self.totals() =~= old_self.totals().update(l, (old_self.totals()[l] + qty) as i64));
            assert forall|m: int| 0 <= m < LADDER_SIZE implies (#[trigger] levels[m]).wf(p1) by {
                if m != l {
                    assert(levels[m] == old_self.levels@[m]);
                    assert(levels[m].wf(p0));
                    assert forall|k: int| 0 <= k < levels[m].ids().len() implies {
                        &&& p1.occupied(#[trigger] levels[m].ids()[k] as int)
                        &&& p1.order(levels[m].ids()[k] as int).prev == p0.order(
                            levels[m].ids()[k] as int,
                        ).prev
                        &&& p1.order(levels[m].ids()[k] as int).next == p0.order(
                            levels[m].ids()[k] as int,
                        ).next
                    } by {
                        let i = levels[m].ids()[k];
                        assert(old_self.queues()[m][k] == i);
                        assert(p0.occupied(i as int));
                        assert(!touched.contains(i)) by {
                            if old_self.queues()[l].contains(i) {
                                let j = choose|j: int| 0 <= j < old_self.queues()[l].len() && old_self.queues()[l][j] == i;
                                assert(old_self.slots()[old_self.queues()[l][j]] == l);
                            }
                            assert(old_self.slots().contains_key(i));
                        }
                        assert(p1.slots[i as int] == p0.slots[i as int]);
                    }
                    levels[m].lemma_frame(p0, p1);
                }
            }
            assert forall|m: int, k: int|
                0 <= m < LADDER_SIZE && 0 <= k < levels[m].ids().len() implies {
                &&& self.loc@.contains_key(#[trigger] levels[m].ids()[k])
                &&& self.loc@[levels[m].ids()[k]] == m
            } by {
                if m != l || k < old_self.queues()[l].len() {
                    assert(levels[m].ids()[k] == old_self.queues()[m][k]);
                    assert(old_self.queues()[m][k] != handle.slot());
                }
            }
            assert forall|i: u32| #[trigger] self.loc@.contains_key(i) implies 0 <= self.loc@[i]
                < LADDER_SIZE && levels[self.loc@[i]].ids().contains(i) by {
                if i == handle.slot() {
                    assert(levels[l].ids()[old_self.queues()[l].len() as int] == i);
                } else {
                    let m = old_self.slots()[i];
                    assert(old_self.queues()[m].contains(i));
                    let k = choose|k: int| 0 <= k < old_self.queues()[m].len() && old_self.queues()[m][k] == i;
                    assert(levels[m].ids()[k] == i);
                }
            }
            assert forall|m: int|
                0 <= m < LADDER_SIZE && (#[trigger] levels[m]).ids().len() > 0 implies 0 < level_price(
                m,
                self.reference.value(),
            ) <= i64::MAX by {
                if m != l {
                    assert(old_self.queues()[m].len() > 0);
                }
            }
            lemma_best_of(self.side, old_self.queues());
            lemma_best_of(self.side, self.queues());
            let nq = self.queues();
            match best_of(self.side, old_self.queues()) {
                None => {
                    assert(is_best_level(self.side, nq, l)) by {
                        assert forall|m: int| 0 <= m < nq.len() && (#[trigger] nq[m]).len() > 0 implies m == l by {
                            if m != l {
                                assert(old_self.queues()[m].len() > 0);
                            }
                        }
                    }
                },
                Some(b) => {
                    let better = match self.side {
                        Side::Bid => l > b,
                        Side::Ask => l < b,
                    };
                    if better {
                        assert(is_best_level(self.side, nq, l)) by {
                            assert forall|m: int| 0 <= m < nq.len() && (#[trigger] nq[m]).len() > 0 implies match self.side {
                                Side::Bid => m <= l,
                                Side::Ask => l <= m,
                            } by {
                                if m != l {
                                    assert(old_self.queues()[m].len() > 0);
                                }
                            }
                        }
                    } else {
                        assert(is_best_level(self.side, nq, b)) by {
                            assert(nq[b].len() > 0);
                            assert forall|m: int| 0 <= m < nq.len() && (#[trigger] nq[m]).len() > 0 implies match self.side {
                                Side::Bid => m <= b,
                                Side::Ask => b <= m,
                            } by {
                                if m != l {
                                    assert(old_self.queues()[m].len() > 0);
                                } else {
                                    assert(old_self.queues()[b].len() > 0);
                                }
                            }
                        }
                    }
                },
            }
        }
        Ok(())
    }

    /// The nearest non-empty level beyond `from`, moving away from the
    /// touch: downwards for bids, upwards for asks.
    fn find_next_best(&self, from: u32, Ghost(pool): Ghost<PoolView>) -> (r: Option<u32>)
        requires
            self.levels@.len() == LADDER_SIZE,
            forall|l: int| 0 <= l < LADDER_SIZE ==> (#[trigger] self.levels@[l]).wf(pool),
            from < LADDER_SIZE,
        ensures
            match self.side_of() {
                Side::Bid => match r {
                    Some(b) => b < from && self.queues()[b as int].len() > 0 && forall|l: int|
                        b < l < from ==> (#[trigger] self.queues()[l]).len() == 0,
                    None => forall|l: int| 0 <= l < from ==> (#[trigger] self.queues()[l]).len() == 0,
                },
                Side::Ask => match r {
                    Some(b) => from < b < LADDER_SIZE && self.queues()[b as int].len() > 0
                        && forall|l: int| from < l < b ==> (#[trigger] self.queues()[l]).len() == 0,
                    None => forall|l: int|
                        from < l < LADDER_SIZE ==> (#[trigger] self.queues()[l]).len() == 0,
                },
            },
    {
        match self.side {
            Side::Bid => {
                let mut i = from;
                while i > 0
                    invariant
                        self.side == Side::Bid,
                        i <= from,
                        self.levels@.len() == LADDER_SIZE,
                        forall|l: int| 0 <= l < LADDER_SIZE ==> (#[trigger] self.levels@[l]).wf(pool),
                        from < LADDER_SIZE,
                        forall|l: int| i <= l < from ==> (#[trigger] self.queues()[l]).len() == 0,
                    decreases i,
                {
                    i -= 1;
                    let lvl = &self.levels[i as usize];
                    proof {
                        assert(lvl.wf(pool));
                        assert(self.queues()[i as int] == self.levels@[i as int].ids());
                    }
                    let empty = lvl.is_empty();
                    proof {
                        assert(empty == (self.queues()[i as int].len() == 0));
                    }
                    if !empty {
                        return Some(i);
                    }
                }
                None
            },
            Side::Ask => {
                let mut i = from + 1;
                while (i as usize) < LADDER_SIZE
                    invariant
                        self.side == Side::Ask,
                        from < i <= LADDER_SIZE,
                        self.levels@.len() == LADDER_SIZE,
                        forall|l: int| 0 <= l < LADDER_SIZE ==> (#[trigger] self.levels@[l]).wf(pool),
                        forall|l: int| from < l < i ==> (#[trigger] self.queues()[l]).len() == 0,
                    decreases LADDER_SIZE - i,
                {
                    let lvl = &self.levels[i as usize];
                    proof {
                        assert(lvl.wf(pool));
                        assert(self.queues()[i as int] == self.levels@[i as int].ids());
                    }
                    let empty = lvl.is_empty();
                    proof {
                        assert(empty == (self.queues()[i as int].len() == 0));
                    }
                    if !empty {
                        return Some(i);
                    }
                    i += 1;
                }
                None
            },
        }
    }

    pub fn remove_order(
        &mut self,
        handle: OrderHandle,
        price: Price,
        qty: i64,
        pool: &mut OrderPool,
    )
        requires
            old(pool).wf(),
            old(self).wf(old(pool)@),
            price.wf(),
            level_index(price.value(), old(self).reference_price().value()) <= i64::MAX,
            in_ladder(price.value(), old(self).reference_price().value()) ==> {
                let l = level_index(price.value(), old(self).reference_price().value());
                &&& old(self).queues()[l].contains(handle.slot())
                &&& i64::MIN <= old(self).totals()[l] - qty <= i64::MAX
            },
        ensures
            final(pool).wf(),
            final(self).wf(final(pool)@),
            final(self).reference_price() == old(self).reference_price(),
            final(self).side_of() == old(self).side_of(),
            !in_ladder(price.value(), old(self).reference_price().value()) ==> *final(self)
                == *old(self) && final(pool)@ == old(pool)@,
            in_ladder(price.value(), old(self).reference_price().value()) ==> {
                let l = level_index(price.value(), old(self).reference_price().value());
                let q = old(self).queues()[l];
                &&& final(self).queues() == old(self).queues().update(
                    l,
                    q.remove(q.index_of(handle.slot())),
                )
                &&& final(self).totals() == old(self).totals().update(
                    l,
                    (old(self).totals()[l] - qty) as i64,
                )
                &&& final(self).slots() == old(self).slots().remove(handle.slot())
                &&& old(pool)@.links_changed_only(final(pool)@, q.to_set())
                &&& final(pool)@.order(handle.slot() as int).prev is None
                &&& final(pool)@.order(handle.slot() as int).next is None
            },
    {
        let idx = match price_to_index(price, self.reference) {
            Some(i) => i,
            None => {
                return ;
            },
        };
        let ghost p0 = pool@;
        let ghost old_self = *self;
        proof {
            old_self.lemma_wf(p0);
            assert(self.levels@[idx as int].wf(p0));
            assert(self.levels@[idx as int].ids() == old_self.queues()[idx as int]);
        }
        self.levels[idx].remove_order(handle, qty, pool);
        self.loc = Ghost(self.loc@.remove(handle.slot()));
        let ghost l = idx as int;
        let ghost q = old_self.queues()[l];
        let ghost k = q.index_of(handle.slot());
        proof {
            let p1 = pool@;
            let levels = self.levels@;
            assert(0 <= k < q.len() && q[k] == handle.slot());
            assert(self.queues() =~= old_self.queues().update(l, q.remove(k)));
            assert(self.totals() =~= old_self.totals().update(l, (old_self.totals()[l] - qty) as i64));
            assert forall|m: int| 0 <= m < LADDER_SIZE implies (#[trigger] levels[m]).wf(p1) by {
                if m != l {
                    assert(levels[m] == old_self.levels@[m]);
                    assert(levels[m].wf(p0));
                    assert forall|j: int| 0 <= j < levels[m].ids().len() implies {
                        &&& p1.occupied(#[trigger] levels[m].ids()[j] as int)
                        &&& p1.order(levels[m].ids()[j] as int).prev == p0.order(
                            levels[m].ids()[j] as int,
                        ).prev
                        &&& p1.order(levels[m].ids()[j] as int).next == p0.order(
                            levels[m].ids()[j] as int,
                        ).next
                    } by {
                        let i = levels[m].ids()[j];
                        assert(old_self.queues()[m][j] == i);
                        assert(p0.occupied(i as int));
                        assert(!q.to_set().contains(i)) by {
                            if q.contains(i) {
                                let jj = choose|jj: int| 0 <= jj < q.len() && q[jj] == i;
                                assert(old_self.slots()[old_self.queues()[l][jj]] == l);
                            }
                        }
                        assert(p1.slots[i as int] == p0.slots[i as int]);
                    }
                    levels[m].lemma_frame(p0, p1);
                }
            }
            assert forall|a: int| 0 <= a < q.len() - 1 implies #[trigger] q.remove(k)[a] == if a < k {
                q[a]
            } else {
                q[a + 1]
            } by {}
            assert forall|m: int, j: int|
                0 <= m < LADDER_SIZE && 0 <= j < levels[m].ids().len() implies {
                &&& self.loc@.contains_key(#[trigger] levels[m].ids()[j])
                &&& self.loc@[levels[m].ids()[j]] == m
            } by {
                if m != l {
                    assert(levels[m].ids()[j] == old_self.queues()[m][j]);
                    assert(old_self.slots()[handle.slot()] == l);
                } else {
                    let j1 = if j < k {
                        j
                    } else {
                        j + 1
                    };
                    assert(levels[m].ids()[j] == q[j1]);
                    assert(q[j1] != q[k]);
                }
            }
            assert forall|i: u32| #[trigger] self.loc@.contains_key(i) implies 0 <= self.loc@[i]
                < LADDER_SIZE && levels[self.loc@[i]].ids().contains(i) by {
                let m = old_self.slots()[i];
                assert(old_self.queues()[m].contains(i));
                let j = choose|j: int| 0 <= j < old_self.queues()[m].len() && old_self.queues()[m][j] == i;
                if m != l {
                    assert(levels[m].ids()[j] == i);
                } else {
                    assert(j != k);
                    let j1 = if j < k {
                        j
                    } else {
                        j - 1
                    };
                    assert(levels[m].ids()[j1] == i);
                }
            }
            assert forall|m: int|
                0 <= m < LADDER_SIZE && (#[trigger] levels[m]).ids().len() > 0 implies 0 < level_price(
                m,
                self.reference.value(),
            ) <= i64::MAX by {
                assert(old_self.queues()[m].len() > 0);
            }
            lemma_best_of(self.side, old_self.queues());
        }
        if self.best != Some(idx as u32) {
            proof {
                lemma_best_of(self.side, self.queues());
                let b = best_of(self.side, old_self.queues())->0;
                assert(b != l);
                assert(is_best_level(self.side, self.queues(), b)) by {
                    assert forall|m: int| 0 <= m < LADDER_SIZE && (#[trigger] self.queues()[m]).len() > 0 implies match self.side {
                        Side::Bid => m <= b,
                        Side::Ask => b <= m,
                    } by {
                        assert(old_self.queues()[m].len() > 0);
                    }
                }
            }
            return ;
        }
        if !self.levels[idx].is_empty() {
            proof {
                lemma_best_of(self.side, self.queues());
                assert(self.levels@[l].wf(pool@));
                assert(is_best_level(self.side, self.queues(), l)) by {
                    assert forall|m: int| 0 <= m < LADDER_SIZE && (#[trigger] self.queues()[m]).len() > 0 implies match self.side {
                        Side::Bid => m <= l,
                        Side::Ask => l <= m,
                    } by {
                        assert(old_self.queues()[m].len() > 0);
                    }
                }
            }
            return ;
        }
        proof {
            assert(self.levels@[l].wf(pool@));
        }
        self.best = self.find_next_best(idx as u32, Ghost(pool@));
        proof {
            let nq = self.queues();
            lemma_best_of(self.side, nq);
            match self.best {
                Some(b) => {
                    assert(is_best_level(self.side, nq, b as int)) by {
                        assert forall|m: int| 0 <= m < LADDER_SIZE && (#[trigger] nq[m]).len() > 0 implies match self.side {
                            Side::Bid => m <= b,
                            Side::Ask => b <= m,
                        } by {
                            assert(old_self.queues()[m].len() > 0);
                        }
                    }
                },
                None => {
                    if best_of(self.side, nq) is Some {
                        let b = best_of(self.side, nq)->0;
                        assert(old_self.queues()[b].len() > 0);
                    }
                },
            }
        }
    }

    pub fn best_price(&self) -> (r: Option<Price>)
        requires
            exists|pool: PoolView| self.wf(pool),
        ensures
            match self.best_index() {
                Some(b) => r is Some && r->0.value() == level_price(
                    b,
                    self.reference_price().value(),
                ) && r->0.wf(),
                None => r is None,
            },
    {
        let ghost pool = choose|pool: PoolView| self.wf(pool);
        proof {
            self.lemma_wf(pool);
            lemma_best_of(self.side, self.queues());
        }
        match self.best {
            Some(idx) => Some(index_to_price(idx as usize, self.reference)),
            None => None,
        }
    }

    pub fn best_level(&self) -> (r: Option<&PriceLevel>)
        requires
            exists|pool: PoolView| self.wf(pool),
        ensures
            match self.best_index() {
                Some(b) => r is Some && *r->0 == self.level(b) && r->0.total() == self.totals()[b]
                    && r->0.ids() == self.queues()[b],
                None => r is None,
            },
    {
        let ghost pool = choose|pool: PoolView| self.wf(pool);
        proof {
            self.lemma_wf(pool);
            lemma_best_of(self.side, self.queues());
        }
        match self.best {
            Some(idx) => Some(&self.levels[idx as usize]),
            None => None,
        }
    }

    pub fn decrease_level_qty(&mut self, price: Price, by: i64)
        requires
            exists|pool: PoolView| old(self).wf(pool),
            price.wf(),
            in_ladder(price.value(), old(self).reference_price().value()),
            i64::MIN <= old(self).totals()[level_index(
                price.value(),
                old(self).reference_price().value(),
            )] - by <= i64::MAX,
        ensures
            forall|pool: PoolView| old(self).wf(pool) ==> final(self).wf(pool),
            final(self).queues() == old(self).queues(),
            final(self).slots() == old(self).slots(),
            final(self).reference_price() == old(self).reference_price(),
            final(self).side_of() == old(self).side_of(),
            final(self).totals() == old(self).totals().update(
                level_index(price.value(), old(self).reference_price().value()),
                (old(self).totals()[level_index(
                    price.value(),
                    old(self).reference_price().value(),
                )] - by) as i64,
            ),
    {
        let ghost pool = choose|pool: PoolView| self.wf(pool);
        let ghost old_self = *self;
        proof {
            self.lemma_wf(pool);
        }
        let idx = match price_to_index(price, self.reference) {
            Some(i) => i,
            None => {
                proof {
                    assert(false);
                }
                return ;
            },
        };
        self.levels[idx].decrease_qty(by);
        proof {
            assert(self.queues() =~= old_self.queues());
            assert(self.totals() =~= old_self.totals().update(
                idx as int,
                (old_self.totals()[idx as int] - by) as i64,
            ));
            assert forall|p: PoolView| old_self.wf(p) implies self.wf(p) by {
                assert forall|m: int| 0 <= m < LADDER_SIZE implies (#[trigger] self.levels@[m]).wf(p) by {
                    assert(old_self.levels@[m].wf(p));
                }
            }
        }
    }
}

} // verus!

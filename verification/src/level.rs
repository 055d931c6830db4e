use crate::order::Order;
use crate::pool::{OrderHandle, OrderPool, PoolView, same_but_links};
use vstd::prelude::*;

verus! {

broadcast use crate::pool::group_pool;

/// The link an order at position `k` of a queue must have to its predecessor.
pub open spec fn prev_link(ids: Seq<u32>, k: int) -> Option<u32> {
    if k == 0 {
        None
    } else {
        Some(ids[k - 1])
    }
}

/// The link an order at position `k` of a queue must have to its successor.
pub open spec fn next_link(ids: Seq<u32>, k: int) -> Option<u32> {
    if k + 1 < ids.len() {
        Some(ids[k + 1])
    } else {
        None
    }
}

/// The orders in the slots `ids` of `pool` are linked as a doubly linked
/// queue in that order.
pub open spec fn linked(pool: PoolView, ids: Seq<u32>) -> bool {
    forall|k: int|
        #![trigger pool.slots[ids[k] as int]]
        0 <= k < ids.len() ==> {
            &&& pool.occupied(ids[k] as int)
            &&& pool.order(ids[k] as int).prev == prev_link(ids, k)
            &&& pool.order(ids[k] as int).next == next_link(ids, k)
        }
}

/// A sequence of distinct slot indices below `n` has at most `n` elements.
pub proof fn lemma_distinct_bounded(s: Seq<u32>, n: int)
    requires
        0 <= n,
        s.no_duplicates(),
        forall|k: int| 0 <= k < s.len() ==> (#[trigger] s[k]) < n,
    ensures
        s.len() <= n,
    decreases n,
{
    if s.len() > 0 {
        assert(s[0] < n);
        let m = n - 1;
        if m > u32::MAX {
            assert forall|j: int| 0 <= j < s.len() implies (#[trigger] s[j]) < m by {}
            lemma_distinct_bounded(s, m);
            assert(s.len() <= n);
        } else if s.contains(m as u32) {
            let k = s.index_of(m as u32);
            assert(0 <= k < s.len() && s[k] == m as u32);
            let t = s.remove(k);
            assert forall|j: int| 0 <= j < t.len() implies (#[trigger] t[j]) < m by {
                let j1 = if j < k {
                    j
                } else {
                    j + 1
                };
                assert(t[j] == s[j1]);
                assert(s[j1] != s[k]);
            }
            assert(t.no_duplicates()) by {
                assert forall|a: int, b: int|
                    0 <= a < t.len() && 0 <= b < t.len() && a != b implies t[a] != t[b] by {
                    let a1 = if a < k {
                        a
                    } else {
                        a + 1
                    };
                    let b1 = if b < k {
                        b
                    } else {
                        b + 1
                    };
                    assert(s[a1] != s[b1]);
                }
            }
            lemma_distinct_bounded(t, m);
            assert(t.len() == s.len() - 1);
            assert(s.len() <= n);
        } else {
            assert forall|j: int| 0 <= j < s.len() implies (#[trigger] s[j]) < m by {
                assert(s[j] != m as u32);
            }
            lemma_distinct_bounded(s, m);
            assert(s.len() <= n);
        }
    }
}

/// One price level: a FIFO queue of orders, threaded through the pool by the
/// orders' own links, with the level's total quantity and length.
#[derive(Clone, Copy)]
pub struct PriceLevel {
    head: Option<u32>,
    tail: Option<u32>,
    total_qty: i64,
    len: u32,
    ids: Ghost<Seq<u32>>,
}

impl PriceLevel {
    /// The pool slots of the queued orders, oldest first.
    pub closed spec fn ids(self) -> Seq<u32> {
        self.ids@
    }

    /// The total quantity the level records.
    pub closed spec fn total(self) -> i64 {
        self.total_qty
    }

    pub closed spec fn wf(self, pool: PoolView) -> bool {
        let ids = self.ids@;
        &&& ids.no_duplicates()
        &&& self.len == ids.len()
        &&& self.head == if ids.len() == 0 {
            None::<u32>
        } else {
            Some(ids[0])
        }
        &&& self.tail == if ids.len() == 0 {
            None::<u32>
        } else {
            Some(ids.last())
        }
        &&& linked(pool, ids)
    }

    /// A well-formed level stays so in any pool that keeps the occupancy and
    /// the links of its orders.
    pub proof fn lemma_frame(self, p1: PoolView, p2: PoolView)
        requires
            self.wf(p1),
            forall|k: int|
                0 <= k < self.ids().len() ==> {
                    &&& p2.occupied(#[trigger] self.ids()[k] as int)
                    &&& p2.order(self.ids()[k] as int).prev == p1.order(self.ids()[k] as int).prev
                    &&& p2.order(self.ids()[k] as int).next == p1.order(self.ids()[k] as int).next
                },
        ensures
            self.wf(p2),
    {
        let ids = self.ids@;
        assert forall|k: int| 0 <= k < ids.len() implies {
            &&& p2.occupied(ids[k] as int)
            &&& p2.order(ids[k] as int).prev == prev_link(ids, k)
            &&& p2.order(ids[k] as int).next == next_link(ids, k)
        } by {
            assert(p2.occupied(self.ids()[k] as int));
            assert(p1.slots[ids[k] as int] == p1.slots[ids[k] as int]);
        }
    }

    /// A well-formed level queues distinct occupied slots, and each queued
    /// order links to its neighbours in the queue: the order after the head
    /// is the head's `next`.
    pub proof fn lemma_wf(self, pool: PoolView)
        requires
            self.wf(pool),
        ensures
            self.ids().no_duplicates(),
            self.ids().len() <= u32::MAX,
            forall|k: int|
                0 <= k < self.ids().len() ==> pool.occupied(#[trigger] self.ids()[k] as int),
            linked(pool, self.ids()),
            forall|k: int|
                0 <= k < self.ids().len() ==> {
                    &&& pool.order(#[trigger] self.ids()[k] as int).prev == prev_link(self.ids(), k)
                    &&& pool.order(self.ids()[k] as int).next == next_link(self.ids(), k)
                },
    {
        let ids = self.ids@;
        assert forall|k: int| 0 <= k < ids.len() implies pool.occupied(#[trigger] ids[k] as int) by {
            assert(pool.slots[ids[k] as int] == pool.slots[ids[k] as int]);
        }
    }

    pub fn new() -> (r: Self)
        ensures
            r.ids() == Seq::<u32>::empty(),
            r.total() == 0,
            forall|pool: PoolView| r.wf(pool),
    {
        Self { head: None, tail: None, total_qty: 0, len: 0, ids: Ghost(Seq::empty()) }
    }

    pub fn add_order(&mut self, handle: OrderHandle, qty: i64, pool: &mut OrderPool)
        requires
            old(pool).wf(),
            old(self).wf(old(pool)@),
            old(pool)@.occupied(handle.slot() as int),
            old(pool)@.order(handle.slot() as int).prev is None,
            old(pool)@.order(handle.slot() as int).next is None,
            !old(self).ids().contains(handle.slot()),
            i64::MIN <= old(self).total() + qty <= i64::MAX,
        ensures
            final(pool).wf(),
            final(self).wf(final(pool)@),
            final(self).ids() == old(self).ids().push(handle.slot()),
            final(self).total() == old(self).total() + qty,
            old(pool)@.links_changed_only(
                final(pool)@,
                old(self).ids().to_set().insert(handle.slot()),
            ),
    {
        let new_idx = handle.index();
        let ghost ids = self.ids@;
        let ghost p0 = pool@;
        proof {
            self.lemma_wf(pool@);
            pool.lemma_wf();
            let s = ids.push(new_idx);
            assert(s.no_duplicates()) by {
                assert forall|a: int, b: int|
                    0 <= a < s.len() && 0 <= b < s.len() && a != b implies s[a] != s[b] by {
                    if a < ids.len() && b < ids.len() {
                        assert(ids[a] != ids[b]);
                    } else if a < ids.len() {
                        assert(ids.contains(ids[a]));
                    } else {
                        assert(ids.contains(ids[b]));
                    }
                }
            }
            assert forall|k: int| 0 <= k < s.len() implies (#[trigger] s[k]) < p0.slots.len() by {
                if k < ids.len() {
                    assert(s[k] == ids[k]);
                }
            }
            lemma_distinct_bounded(s, p0.slots.len() as int);
        }
        match self.tail {
            None => {
                self.head = Some(new_idx);
                self.tail = Some(new_idx);
                proof {
                    assert(p0.slots =~= pool@.slots);
                }
            },
            Some(old_tail_idx) => {
                let ghost n = ids.len() as int;
                proof {
                    assert(ids[n - 1] == old_tail_idx);
                    assert(p0.slots[ids[n - 1] as int] == p0.slots[ids[n - 1] as int]);
                }
                pool.get_by_index_mut(old_tail_idx).next = Some(new_idx);
                pool.get_by_index_mut(new_idx).prev = Some(old_tail_idx);
                self.tail = Some(new_idx);
            },
        }
        self.total_qty = self.total_qty + qty;
        self.len = self.len + 1;
        self.ids = Ghost(ids.push(new_idx));
        proof {
            let p1 = pool@;
            let nids = self.ids@;
            assert(nids.no_duplicates()) by {
                assert forall|a: int, b: int|
                    0 <= a < nids.len() && 0 <= b < nids.len() && a != b implies nids[a]
                    != nids[b] by {
                    if a < ids.len() && b < ids.len() {
                        assert(ids[a] != ids[b]);
                    } else if a < ids.len() {
                        assert(ids.contains(ids[a]));
                    } else {
                        assert(ids.contains(ids[b]));
                    }
                }
            }
            assert forall|k: int| 0 <= k < nids.len() implies {
                &&& p1.occupied(nids[k] as int)
                &&& p1.order(nids[k] as int).prev == prev_link(nids, k)
                &&& p1.order(nids[k] as int).next == next_link(nids, k)
            } by {
                if k < ids.len() {
                    assert(nids[k] == ids[k]);
                    assert(p0.slots[ids[k] as int] == p0.slots[ids[k] as int]);
                    assert(ids[k] != new_idx);
                    if k > 0 {
                        assert(nids[k - 1] == ids[k - 1]);
                    }
                    if k + 1 < ids.len() {
                        assert(nids[k + 1] == ids[k + 1]);
                    }
                } else {
                    if k > 0 {
                        assert(nids[k - 1] == ids[k - 1]);
                    }
                }
            }
            let touched = ids.to_set().insert(new_idx);
            assert forall|j: int| 0 <= j < p0.slots.len() implies {
                &&& #[trigger] p1.slots[j].generation == p0.slots[j].generation
                &&& p1.slots[j].order is Some <==> p0.slots[j].order is Some
                &&& p0.slots[j].order is Some ==> same_but_links(
                    p0.slots[j].order->0,
                    p1.slots[j].order->0,
                )
                &&& !touched.contains(j as u32) ==> p1.slots[j] == p0.slots[j]
            } by {
                if ids.len() > 0 {
                    assert(touched.contains(ids.last()));
                }
            }
        }
    }

    pub fn front(&self) -> (r: Option<u32>)
        ensures
            forall|pool: PoolView|
                #[trigger] self.wf(pool) ==> r == if self.ids().len() == 0 {
                    None::<u32>
                } else {
                    Some(self.ids()[0])
                },
    {
        self.head
    }

    pub fn remove_order(&mut self, handle: OrderHandle, qty: i64, pool: &mut OrderPool)
        requires
            old(pool).wf(),
            old(self).wf(old(pool)@),
            old(self).ids().contains(handle.slot()),
            i64::MIN <= old(self).total() - qty <= i64::MAX,
        ensures
            final(pool).wf(),
            final(self).wf(final(pool)@),
            final(self).ids() == old(self).ids().remove(old(self).ids().index_of(handle.slot())),
            final(self).total() == old(self).total() - qty,
            old(pool)@.links_changed_only(final(pool)@, old(self).ids().to_set()),
            final(pool)@.order(handle.slot() as int).prev is None,
            final(pool)@.order(handle.slot() as int).next is None,
    {
        let idx = handle.index();
        let ghost ids = self.ids@;
        let ghost p0 = pool@;
        let ghost n = ids.len() as int;
        let ghost k = ids.index_of(idx);
        proof {
            self.lemma_wf(pool@);
            assert(0 <= k < n && ids[k] == idx);
            assert(p0.slots[ids[k] as int] == p0.slots[ids[k] as int]);
        }
        let order = pool.get_by_index(idx);
        let prev = order.prev;
        let next = order.next;
        match prev {
            Some(p) => {
                proof {
                    assert(p == ids[k - 1]);
                    assert(p0.slots[ids[k - 1] as int] == p0.slots[ids[k - 1] as int]);
                }
                pool.get_by_index_mut(p).next = next;
            },
            None => {
                self.head = next;
            },
        }
        proof {
            if k + 1 < n {
                assert(p0.slots[ids[k + 1] as int] == p0.slots[ids[k + 1] as int]);
                assert(ids[k + 1] != ids[k - 1] || k == 0);
            }
        }
        match next {
            Some(nx) => {
                pool.get_by_index_mut(nx).prev = prev;
            },
            None => {
                self.tail = prev;
            },
        }
        let o = pool.get_by_index_mut(idx);
        o.prev = None;
        o.next = None;
        self.total_qty = self.total_qty - qty;
        self.len = self.len - 1;
        self.ids = Ghost(ids.remove(k));
        proof {
            let p1 = pool@;
            let nids = self.ids@;
            assert forall|a: int| 0 <= a < nids.len() implies #[trigger] nids[a] == if a < k {
                ids[a]
            } else {
                ids[a + 1]
            } by {}
            assert(nids.no_duplicates()) by {
                assert forall|a: int, b: int|
                    0 <= a < nids.len() && 0 <= b < nids.len() && a != b implies nids[a]
                    != nids[b] by {
                    let a1 = if a < k {
                        a
                    } else {
                        a + 1
                    };
                    let b1 = if b < k {
                        b
                    } else {
                        b + 1
                    };
                    assert(ids[a1] != ids[b1]);
                }
            }
            assert forall|a: int| 0 <= a < nids.len() implies {
                &&& p1.occupied(nids[a] as int)
                &&& p1.order(nids[a] as int).prev == prev_link(nids, a)
                &&& p1.order(nids[a] as int).next == next_link(nids, a)
            } by {
                let a1 = if a < k {
                    a
                } else {
                    a + 1
                };
                assert(nids[a] == ids[a1]);
                assert(ids[a1] != idx);
                assert(p0.slots[ids[a1] as int] == p0.slots[ids[a1] as int]);
                if a1 > 0 {
                    assert(ids[a1 - 1] != idx || a1 - 1 == k);
                }
                if a + 1 < nids.len() {
                    let b1 = if a + 1 < k {
                        a + 1
                    } else {
                        a + 2
                    };
                    assert(nids[a + 1] == ids[b1]);
                }
                if a > 0 {
                    let c1 = if a - 1 < k {
                        a - 1
                    } else {
                        a
                    };
                    assert(nids[a - 1] == ids[c1]);
                }
            }
            let touched = ids.to_set();
            assert forall|j: int| 0 <= j < p0.slots.len() implies {
                &&& #[trigger] p1.slots[j].generation == p0.slots[j].generation
                &&& p1.slots[j].order is Some <==> p0.slots[j].order is Some
                &&& p0.slots[j].order is Some ==> same_but_links(
                    p0.slots[j].order->0,
                    p1.slots[j].order->0,
                )
                &&& !touched.contains(j as u32) ==> p1.slots[j] == p0.slots[j]
            } by {
                assert(touched.contains(idx));
                if k > 0 {
                    assert(touched.contains(ids[k - 1]));
                }
                if k + 1 < n {
                    assert(touched.contains(ids[k + 1]));
                }
            }
        }
    }

    pub fn decrease_qty(&mut self, by: i64)
        requires
            i64::MIN <= old(self).total() - by <= i64::MAX,
        ensures
            final(self).ids() == old(self).ids(),
            final(self).total() == old(self).total() - by,
            forall|pool: PoolView| old(self).wf(pool) ==> final(self).wf(pool),
    {
        self.total_qty = self.total_qty - by;
    }

    pub fn len(&self) -> (r: u32)
        ensures
            forall|pool: PoolView| #[trigger] self.wf(pool) ==> r == self.ids().len(),
    {
        self.len
    }

    pub fn is_empty(&self) -> (r: bool)
        ensures
            forall|pool: PoolView| #[trigger] self.wf(pool) ==> r == (self.ids().len() == 0),
    {
        self.len == 0
    }

    pub fn total_qty(&self) -> (r: i64)
        ensures
            r == self.total(),
    {
        self.total_qty
    }
}

} // verus!

use crate::order::Order;
use vstd::prelude::*;

verus! {

/// A reference to an order in an [`OrderPool`]: a slot index and the
/// generation the slot had when the order was stored.
#[derive(Debug, Clone, Copy, PartialEq, Eq, Structural)]
pub struct OrderHandle {
    index: u32,
    generation: u32,
}

impl OrderHandle {
    /// The slot this handle refers to.
    pub closed spec fn slot(self) -> u32 {
        self.index
    }

    /// The generation this handle expects its slot to have.
    pub closed spec fn stamp(self) -> u32 {
        self.generation
    }

    /// The handle for slot `index` at generation `generation`.
    pub closed spec fn make(index: u32, generation: u32) -> OrderHandle {
        OrderHandle { index, generation }
    }

    pub broadcast proof fn lemma_make(index: u32, generation: u32)
        ensures
            #[trigger] OrderHandle::make(index, generation).slot() == index,
            OrderHandle::make(index, generation).stamp() == generation,
    {
    }

    pub broadcast proof fn lemma_handle_ext(h: OrderHandle)
        ensures
            #[trigger] OrderHandle::make(h.slot(), h.stamp()) == h,
    {
    }

    pub(crate) fn index(self) -> (r: u32)
        ensures
            r == self.slot(),
    {
        self.index
    }
}

#[derive(Debug, Clone, Copy)]
enum SlotState {
    Free { next_free: Option<u32> },
    Occupied { order: Order },
}

#[derive(Debug, Clone, Copy)]
struct Slot {
    generation: u32,
    state: SlotState,
}

/// What a slot of the pool holds: its generation and the order, if any.
pub struct SlotView {
    pub generation: u32,
    pub order: Option<Order>,
}

/// The abstract state of an [`OrderPool`]: its slots, and the free slots in
/// the order in which `insert` will reuse them.
pub struct PoolView {
    pub slots: Seq<SlotView>,
    pub free: Seq<u32>,
}

/// `a` and `b` are the same order, but for their queue links.
pub open spec fn same_but_links(a: Order, b: Order) -> bool {
    &&& a.order_id == b.order_id
    &&& a.subaccount == b.subaccount
    &&& a.side == b.side
    &&& a.price == b.price
    &&& a.qty == b.qty
    &&& a.remaining == b.remaining
}

/// The generation a slot takes when an order is stored in it: one more,
/// skipping zero on wrap-around.
pub open spec fn next_generation(g: u32) -> u32 {
    if g == u32::MAX {
        1
    } else {
        (g + 1) as u32
    }
}

/// The number of occupied slots among the first `n`.
pub open spec fn count_occupied(slots: Seq<SlotView>, n: int) -> nat
    decreases n,
{
    if n <= 0 {
        0
    } else {
        count_occupied(slots, n - 1) + if slots[n - 1].order is Some {
            1nat
        } else {
            0nat
        }
    }
}

/// A fresh pool of `capacity` slots: all free, at generation zero, reused in
/// index order.
pub open spec fn empty_pool(capacity: nat) -> PoolView {
    PoolView {
        slots: Seq::new(capacity, |i: int| SlotView { generation: 0, order: None }),
        free: Seq::new(capacity, |i: int| i as u32),
    }
}

/// The pool after inserting `orders` one after the other.
pub open spec fn insert_all(p: PoolView, orders: Seq<Order>) -> PoolView
    decreases orders.len(),
{
    if orders.len() == 0 {
        p
    } else {
        insert_all(p, orders.drop_last()).after_insert(orders.last())
    }
}

impl PoolView {
    /// An occupied slot is a slot of the pool.
    pub proof fn lemma_occupied_bound(self, i: int)
        requires
            self.occupied(i),
        ensures
            0 <= i < self.slots.len(),
    {
    }
    pub open spec fn occupied(self, i: int) -> bool {
        0 <= i < self.slots.len() && self.slots[i].order is Some
    }

    pub open spec fn order(self, i: int) -> Order {
        self.slots[i].order->0
    }

    /// `h` names the order that currently occupies its slot.
    pub open spec fn valid(self, h: OrderHandle) -> bool {
        &&& h.slot() < self.slots.len()
        &&& self.slots[h.slot() as int].generation == h.stamp()
        &&& self.slots[h.slot() as int].order is Some
    }

    /// The handle that names the order in slot `i`.
    pub open spec fn handle_of(self, i: int) -> OrderHandle {
        OrderHandle::make(i as u32, self.slots[i].generation)
    }

    /// The free list names distinct free slots.
    pub open spec fn wf(self) -> bool {
        &&& self.slots.len() <= u32::MAX
        &&& self.free.no_duplicates()
        &&& forall|k: int|
            0 <= k < self.free.len() ==> #[trigger] self.free[k] < self.slots.len()
                && self.slots[self.free[k] as int].order is None
    }

    /// The free list holds exactly the free slots, each once: the state an
    /// `OrderPool` keeps.
    pub open spec fn exact(self) -> bool {
        &&& self.wf()
        &&& forall|i: int|
            0 <= i < self.slots.len() && (#[trigger] self.slots[i]).order is None
                ==> self.free.contains(i as u32)
    }

    /// The number of orders the pool holds.
    pub open spec fn live_count(self) -> nat {
        count_occupied(self.slots, self.slots.len() as int)
    }

    /// The handle `insert` returns: the first free slot, at its next generation.
    pub open spec fn inserted_handle(self) -> OrderHandle {
        OrderHandle::make(self.free[0], next_generation(self.slots[self.free[0] as int].generation))
    }

    /// The pool after `insert(o)`.
    pub open spec fn after_insert(self, o: Order) -> PoolView {
        if self.free.len() == 0 {
            self
        } else {
            let i = self.free[0] as int;
            PoolView {
                slots: self.slots.update(
                    i,
                    SlotView { generation: next_generation(self.slots[i].generation), order: Some(o) },
                ),
                free: self.free.drop_first(),
            }
        }
    }

    /// The pool after `remove(h)`.
    pub open spec fn after_remove(self, h: OrderHandle) -> PoolView {
        if !self.valid(h) {
            self
        } else {
            let i = h.slot() as int;
            PoolView {
                slots: self.slots.update(
                    i,
                    SlotView { generation: self.slots[i].generation, order: None },
                ),
                free: seq![h.slot()] + self.free,
            }
        }
    }

    /// `other` holds the same orders in the same slots as `self`, with the
    /// same generations and free list; only queue links may differ, and only
    /// in the slots that `touched` names.
    pub open spec fn links_changed_only(self, other: PoolView, touched: Set<u32>) -> bool {
        &&& other.slots.len() == self.slots.len()
        &&& other.free == self.free
        &&& forall|j: int|
            #![trigger other.slots[j]]
            0 <= j < self.slots.len() ==> {
                &&& other.slots[j].generation == self.slots[j].generation
                &&& other.slots[j].order is Some <==> self.slots[j].order is Some
                &&& self.slots[j].order is Some ==> same_but_links(
                    self.slots[j].order->0,
                    other.slots[j].order->0,
                )
                &&& !touched.contains(j as u32) ==> other.slots[j] == self.slots[j]
            }
    }

    /// The same pool where the order in slot `i` is replaced by `o`.
    pub open spec fn with_order(self, i: int, o: Order) -> PoolView {
        PoolView {
            slots: self.slots.update(
                i,
                SlotView { generation: self.slots[i].generation, order: Some(o) },
            ),
            free: self.free,
        }
    }
}

spec fn slot_view(s: Slot) -> SlotView {
    SlotView {
        generation: s.generation,
        order: match s.state {
            SlotState::Occupied { order } => Some(order),
            SlotState::Free { .. } => None,
        },
    }
}

/// A slab of order slots with a free list; each slot carries a generation
/// so that a handle to a removed order never reaches a later one.
pub struct OrderPool {
    slots: Vec<Slot>,
    free_head: Option<u32>,
    free: Ghost<Seq<u32>>,
}

impl View for OrderPool {
    type V = PoolView;

    closed spec fn view(&self) -> PoolView {
        PoolView { slots: self.slots@.map_values(|s: Slot| slot_view(s)), free: self.free@ }
    }
}

impl OrderPool {
    /// The free list threads exactly the free slots, in the order of `free`.
    pub closed spec fn wf(&self) -> bool {
        let free = self.free@;
        let slots = self.slots@;
        &&& slots.len() <= u32::MAX
        &&& self.free_head == if free.len() == 0 {
            None::<u32>
        } else {
            Some(free[0])
        }
        &&& free.no_duplicates()
        &&& forall|k: int|
            #![trigger free[k]]
            0 <= k < free.len() ==> {
                &&& free[k] < slots.len()
                &&& slots[free[k] as int].state == (SlotState::Free {
                    next_free: if k + 1 < free.len() {
                        Some(free[k + 1])
                    } else {
                        None
                    },
                })
            }
        &&& forall|i: int|
            0 <= i < slots.len() && (#[trigger] slots[i]).state is Free ==> free.contains(
                i as u32,
            )
    }

    pub proof fn lemma_wf(&self)
        requires
            self.wf(),
        ensures
            self@.wf(),
            self@.exact(),
            self@.slots.len() <= u32::MAX,
            self@.free.no_duplicates(),
            forall|k: int|
                0 <= k < self@.free.len() ==> #[trigger] self@.free[k] < self@.slots.len()
                    && self@.slots[self@.free[k] as int].order is None,
            forall|i: int|
                0 <= i < self@.slots.len() && (#[trigger] self@.slots[i]).order is None
                    ==> self@.free.contains(i as u32),
    {
        assert forall|i: int|
            0 <= i < self@.slots.len() && (#[trigger] self@.slots[i]).order is None implies self@.free.contains(
            i as u32,
        ) by {
            assert(self.slots@[i].state is Free);
        }
    }

    pub fn new(capacity: usize) -> (r: Self)
        requires
            capacity <= u32::MAX,
        ensures
            r.wf(),
            r@.slots == Seq::new(
                capacity as nat,
                |i: int| SlotView { generation: 0, order: None },
            ),
            r@.free == Seq::new(capacity as nat, |i: int| i as u32),
            r@ == empty_pool(capacity as nat),
    {
        let mut slots: Vec<Slot> = Vec::with_capacity(capacity);
        let mut i: usize = 0;
        while i < capacity
            invariant
                capacity <= u32::MAX,
                i <= capacity,
                slots@.len() == i,
                forall|j: int|
                    0 <= j < i ==> #[trigger] slots@[j] == (Slot {
                        generation: 0,
                        state: SlotState::Free {
                            next_free: if j + 1 < capacity {
                                Some((j + 1) as u32)
                            } else {
                                None
                            },
                        },
                    }),
            decreases capacity - i,
        {
            let next_free = if i + 1 < capacity {
                Some((i + 1) as u32)
            } else {
                None
            };
            slots.push(Slot { generation: 0, state: SlotState::Free { next_free } });
            i = i + 1;
        }
        let free_head = if capacity > 0 {
            Some(0)
        } else {
            None
        };
        let ghost free = Seq::new(capacity as nat, |i: int| i as u32);
        let r = Self { slots, free_head, free: Ghost(free) };
        proof {
            assert(free.no_duplicates());
            assert forall|i: int|
                0 <= i < slots@.len() && (#[trigger] slots@[i]).state is Free implies free.contains(
                i as u32,
            ) by {
                assert(free[i] == i as u32);
            }
            assert(r@.slots =~= Seq::new(
                capacity as nat,
                |i: int| SlotView { generation: 0, order: None },
            ));
        }
        r
    }

    pub fn insert(&mut self, order: Order) -> (r: Option<OrderHandle>)
        requires
            old(self).wf(),
        ensures
            final(self).wf(),
            final(self)@ == old(self)@.after_insert(order),
            r == if old(self)@.free.len() == 0 {
                None
            } else {
                Some(old(self)@.inserted_handle())
            },
            old(self)@.free.len() == 0 ==> r is None && final(self)@ == old(self)@,
            old(self)@.free.len() > 0 ==> {
                let i = old(self)@.free[0] as int;
                let g = next_generation(old(self)@.slots[i].generation);
                &&& r == Some(OrderHandle::make(i as u32, g))
                &&& final(self)@.slots == old(self)@.slots.update(
                    i,
                    SlotView { generation: g, order: Some(order) },
                )
                &&& final(self)@.free == old(self)@.free.drop_first()
            },
    {
        let index = match self.free_head {
            Some(i) => i,
            None => {
                return None;
            },
        };
        proof {
            assert(self.free@[0] == index);
        }
        let slot = self.slots[index as usize];
        let next_free = match slot.state {
            SlotState::Free { next_free } => next_free,
            SlotState::Occupied { .. } => {
                proof {
                    assert(false);
                }
                return None;
            },
        };
        let mut generation = slot.generation.wrapping_add(1);
        if generation == 0 {
            generation = 1;
        }
        self.slots.set(index as usize, Slot { generation, state: SlotState::Occupied { order } });
        self.free_head = next_free;
        let ghost old_free = self.free@;
        self.free = Ghost(old_free.drop_first());
        proof {
            let free = self.free@;
            assert forall|k: int| #![trigger free[k]] 0 <= k < free.len() implies free[k]
                != index by {
                assert(old_free[k + 1] != old_free[0]);
            }
            assert forall|i: int|
                0 <= i < self.slots@.len() && (#[trigger] self.slots@[i]).state is Free implies free.contains(
                i as u32,
            ) by {
                assert(old(self).slots@[i] == self.slots@[i]);
                assert(old_free.contains(i as u32));
                let k = choose|k: int| 0 <= k < old_free.len() && old_free[k] == i as u32;
                assert(k != 0);
                assert(free[k - 1] == i as u32);
            }
            assert(self@.slots =~= old(self)@.slots.update(
                index as int,
                SlotView { generation, order: Some(order) },
            ));
        }
        Some(OrderHandle { index, generation })
    }

    pub fn remove(&mut self, handle: OrderHandle) -> (r: Option<Order>)
        requires
            old(self).wf(),
        ensures
            final(self).wf(),
            final(self)@ == old(self)@.after_remove(handle),
            r == if old(self)@.valid(handle) {
                old(self)@.slots[handle.slot() as int].order
            } else {
                None
            },
            !old(self)@.valid(handle) ==> r is None && final(self)@ == old(self)@,
            old(self)@.valid(handle) ==> {
                let i = handle.slot() as int;
                &&& r == old(self)@.slots[i].order
                &&& final(self)@.slots == old(self)@.slots.update(
                    i,
                    SlotView { generation: old(self)@.slots[i].generation, order: None },
                )
                &&& final(self)@.free == seq![handle.slot()] + old(self)@.free
            },
    {
        let i = handle.index as usize;
        if i >= self.slots.len() {
            return None;
        }
        let slot = self.slots[i];
        if slot.generation != handle.generation {
            return None;
        }
        let order = match slot.state {
            SlotState::Occupied { order } => order,
            SlotState::Free { .. } => {
                return None;
            },
        };
        self.slots.set(
            i,
            Slot { generation: slot.generation, state: SlotState::Free { next_free: self.free_head } },
        );
        self.free_head = Some(handle.index);
        let ghost old_free = self.free@;
        self.free = Ghost(seq![handle.index] + old_free);
        proof {
            let free = self.free@;
            assert(!old_free.contains(handle.index)) by {
                if old_free.contains(handle.index) {
                    let k = choose|k: int| 0 <= k < old_free.len() && old_free[k] == handle.index;
                    assert(old_free[k] == handle.index);
                }
            }
            assert forall|k: int| #![trigger free[k]] 0 <= k < free.len() implies {
                &&& free[k] < self.slots@.len()
                &&& self.slots@[free[k] as int].state == (SlotState::Free {
                    next_free: if k + 1 < free.len() {
                        Some(free[k + 1])
                    } else {
                        None
                    },
                })
            } by {
                if k > 0 {
                    assert(free[k] == old_free[k - 1]);
                    assert(old_free[k - 1] != handle.index);
                }
            }
            assert(free.no_duplicates()) by {
                assert forall|a: int, b: int|
                    0 <= a < free.len() && 0 <= b < free.len() && a != b implies free[a]
                    != free[b] by {
                    if a > 0 && b > 0 {
                        assert(old_free[a - 1] != old_free[b - 1]);
                    } else if a == 0 {
                        assert(old_free[b - 1] != handle.index);
                    } else {
                        assert(old_free[a - 1] != handle.index);
                    }
                }
            }
            assert forall|j: int|
                0 <= j < self.slots@.len() && (#[trigger] self.slots@[j]).state is Free implies free.contains(
                j as u32,
            ) by {
                if j == i {
                    assert(free[0] == j as u32);
                } else {
                    assert(old(self).slots@[j] == self.slots@[j]);
                    let k = choose|k: int| 0 <= k < old_free.len() && old_free[k] == j as u32;
                    assert(free[k + 1] == j as u32);
                }
            }
            assert(self@.slots =~= old(self)@.slots.update(
                i as int,
                SlotView { generation: slot.generation, order: None },
            ));
        }
        Some(order)
    }

    pub fn get(&self, handle: OrderHandle) -> (r: Option<&Order>)
        requires
            self.wf(),
        ensures
            match r {
                Some(o) => self@.valid(handle) && *o == self@.order(handle.slot() as int),
                None => !self@.valid(handle),
            },
    {
        let i = handle.index as usize;
        if i >= self.slots.len() {
            return None;
        }
        let slot = &self.slots[i];
        if slot.generation != handle.generation {
            return None;
        }
        match &slot.state {
            SlotState::Occupied { order } => Some(order),
            SlotState::Free { .. } => None,
        }
    }

    fn state_order_mut(state: &mut SlotState) -> (r: Option<&mut Order>)
        ensures
            match *old(state) {
                SlotState::Occupied { order } => r is Some && *r->0 == order
                    && *final(state) == (SlotState::Occupied { order: *final(r->0) }),
                SlotState::Free { .. } => r is None && *final(state) == *old(state),
            },
    {
        match state {
            SlotState::Occupied { order } => Some(order),
            SlotState::Free { .. } => None,
        }
    }

    proof fn lemma_order_update_wf(old_pool: &Self, new_pool: &Self, i: int, o: Order)
        requires
            old_pool.wf(),
            0 <= i < old_pool.slots@.len(),
            old_pool.slots@[i].state is Occupied,
            new_pool.free_head == old_pool.free_head,
            new_pool.free@ == old_pool.free@,
            new_pool.slots@ == old_pool.slots@.update(
                i,
                Slot { generation: old_pool.slots@[i].generation, state: SlotState::Occupied { order: o } },
            ),
        ensures
            new_pool.wf(),
            new_pool@ == old_pool@.with_order(i, o),
    {
        let free = old_pool.free@;
        assert forall|k: int| #![trigger free[k]] 0 <= k < free.len() implies free[k] != i by {
        }
        assert(new_pool@.slots =~= old_pool@.with_order(i, o).slots);
    }

    pub fn get_mut(&mut self, handle: OrderHandle) -> (r: Option<&mut Order>)
        requires
            old(self).wf(),
        ensures
            match r {
                Some(o) => {
                    &&& old(self)@.valid(handle)
                    &&& *o == old(self)@.order(handle.slot() as int)
                    &&& final(self)@ == old(self)@.with_order(handle.slot() as int, *final(o))
                    &&& final(self).wf()
                },
                None => !old(self)@.valid(handle) && final(self)@ == old(self)@ && final(self).wf(),
            },
    {
        let i = handle.index as usize;
        if i >= self.slots.len() {
            return None;
        }
        if self.slots[i].generation != handle.generation {
            return None;
        }
        match self.slots[i].state {
            SlotState::Free { .. } => {
                return None;
            },
            SlotState::Occupied { .. } => {},
        }
        let ghost old_pool = *self;
        let slot = &mut self.slots[i];
        let r = Self::state_order_mut(&mut slot.state);
        proof {
            Self::lemma_order_update_wf(&old_pool, &after_borrow(*self), i as int, *final(r->0));
        }
        r
    }

    pub(crate) fn get_by_index(&self, index: u32) -> (r: &Order)
        requires
            self.wf(),
            self@.occupied(index as int),
        ensures
            *r == self@.order(index as int),
    {
        match &self.slots[index as usize].state {
            SlotState::Occupied { order } => order,
            SlotState::Free { .. } => {
                proof {
                    assert(false);
                }
                loop
                    invariant
                        false,
                    decreases 0nat,
                {
                }
            },
        }
    }

    pub(crate) fn get_by_index_mut(&mut self, index: u32) -> (r: &mut Order)
        requires
            old(self).wf(),
            old(self)@.occupied(index as int),
        ensures
            *r == old(self)@.order(index as int),
            final(self)@ == old(self)@.with_order(index as int, *final(r)),
            final(self).wf(),
    {
        let ghost old_pool = *self;
        let slot = &mut self.slots[index as usize];
        let r = Self::state_order_mut(&mut slot.state);
        proof {
            Self::lemma_order_update_wf(&old_pool, &after_borrow(*self), index as int, *final(r->0));
        }
        match r {
            Some(o) => o,
            None => {
                proof {
                    assert(false);
                }
                loop
                    invariant
                        false,
                    decreases 0nat,
                {
                }
            },
        }
    }
}

/// Law: a stored order can be read back through the handle that `insert`
/// returned.
pub proof fn law_read_after_insert(p: PoolView, o: Order)
    requires
        p.wf(),
        p.free.len() > 0,
    ensures
        p.after_insert(o).valid(p.inserted_handle()),
        p.after_insert(o).order(p.inserted_handle().slot() as int) == o,
{
    broadcast use group_pool;

    assert(p.free[0] < p.slots.len());
}

/// Law: a handle serves one order only. Once that order is removed the
/// handle names nothing, neither in the pool it leaves nor after the next
/// insertion reuses its slot.
pub proof fn law_removed_handle_stays_dead(p: PoolView, h: OrderHandle, o: Order)
    requires
        p.wf(),
        p.valid(h),
    ensures
        !p.after_remove(h).valid(h),
        !p.after_remove(h).after_insert(o).valid(h),
        p.after_remove(h).slots[h.slot() as int].order is None,
{
    broadcast use group_pool;

    let q = p.after_remove(h);
    assert(q.free[0] == h.slot());
}

proof fn lemma_count_bound(slots: Seq<SlotView>, n: int)
    requires
        0 <= n <= slots.len(),
    ensures
        count_occupied(slots, n) <= n,
        count_occupied(slots, n) == n <==> forall|i: int|
            0 <= i < n ==> (#[trigger] slots[i]).order is Some,
    decreases n,
{
    if n > 0 {
        lemma_count_bound(slots, n - 1);
        if count_occupied(slots, n) == n {
            assert forall|i: int| 0 <= i < n implies (#[trigger] slots[i]).order is Some by {
                if i < n - 1 {
                }
            }
        }
    }
}

proof fn lemma_count_update(slots: Seq<SlotView>, n: int, i: int, sv: SlotView)
    requires
        0 <= i < slots.len(),
        0 <= n <= slots.len(),
        slots[i].order is None,
        sv.order is Some,
    ensures
        count_occupied(slots.update(i, sv), n) == count_occupied(slots, n) + if i < n {
            1nat
        } else {
            0nat
        },
    decreases n,
{
    if n > 0 {
        lemma_count_update(slots, n - 1, i, sv);
    }
}

/// Law: `insert` fails exactly when every slot holds an order, and then
/// changes nothing. Otherwise one more order is live, readable through the
/// returned handle; every handle that was live stays live, names the same
/// order and differs from the new one; and every handle that was not live
/// stays dead, unless it is the very handle returned (a slot's generation
/// wraps around after 2^32 - 1 reuses).
pub proof fn law_insert(p: PoolView, o: Order)
    requires
        p.exact(),
    ensures
        p.free.len() == 0 <==> p.live_count() == p.slots.len(),
        p.free.len() == 0 ==> p.after_insert(o) == p,
        p.free.len() > 0 ==> {
            let q = p.after_insert(o);
            let h = p.inserted_handle();
            &&& q.exact()
            &&& q.slots.len() == p.slots.len()
            &&& q.live_count() == p.live_count() + 1
            &&& q.valid(h)
            &&& q.order(h.slot() as int) == o
            &&& forall|h2: OrderHandle|
                #[trigger] p.valid(h2) ==> h2 != h && q.valid(h2) && q.order(h2.slot() as int)
                    == p.order(h2.slot() as int)
            &&& forall|h2: OrderHandle| !p.valid(h2) && h2 != h ==> !#[trigger] q.valid(h2)
        },
{
    broadcast use group_pool;

    let n = p.slots.len() as int;
    lemma_count_bound(p.slots, n);
    if p.free.len() == 0 {
        assert forall|i: int| 0 <= i < n implies (#[trigger] p.slots[i]).order is Some by {
            if p.slots[i].order is None {
                assert(p.free.contains(i as u32));
            }
        }
    } else {
        let i = p.free[0] as int;
        assert(p.free[0] < p.slots.len());
        assert(p.slots[i].order is None);
        let q = p.after_insert(o);
        let h = p.inserted_handle();
        let sv = SlotView { generation: next_generation(p.slots[i].generation), order: Some(o) };
        lemma_count_update(p.slots, n, i, sv);
        assert(q.wf()) by {
            assert forall|k: int| 0 <= k < q.free.len() implies #[trigger] q.free[k]
                < q.slots.len() && q.slots[q.free[k] as int].order is None by {
                assert(q.free[k] == p.free[k + 1]);
                assert(p.free[k + 1] != p.free[0]);
            }
        }
        assert forall|j: int|
            0 <= j < q.slots.len() && (#[trigger] q.slots[j]).order is None implies q.free.contains(
            j as u32,
        ) by {
            assert(j != i);
            assert(p.free.contains(j as u32));
            let k = choose|k: int| 0 <= k < p.free.len() && p.free[k] == j as u32;
            assert(k != 0);
            assert(q.free[k - 1] == j as u32);
        }
        assert forall|h2: OrderHandle| #[trigger] p.valid(h2) implies h2 != h && q.valid(h2)
            && q.order(h2.slot() as int) == p.order(h2.slot() as int) by {
            assert(h2.slot() != i as u32);
        }
        assert forall|h2: OrderHandle| !p.valid(h2) && h2 != h implies !#[trigger] q.valid(h2) by {
            if h2.slot() == i as u32 {
                assert(OrderHandle::make(h2.slot(), h2.stamp()) == h2);
            }
        }
    }
}

/// Law: a fresh pool names no order, and takes exactly `capacity` orders:
/// after `k <= capacity` insertions the slots still free are `k..capacity`,
/// so each of the first `capacity` insertions succeeds and the next fails.
pub proof fn law_fresh_pool_takes_capacity_orders(capacity: nat, orders: Seq<Order>)
    requires
        capacity <= u32::MAX,
        orders.len() <= capacity,
    ensures
        forall|h: OrderHandle| !#[trigger] empty_pool(capacity).valid(h),
        insert_all(empty_pool(capacity), orders).free == Seq::new(
            (capacity - orders.len()) as nat,
            |i: int| (i + orders.len()) as u32,
        ),
        insert_all(empty_pool(capacity), orders).free.len() > 0 <==> orders.len() < capacity,
    decreases orders.len(),
{
    let p0 = empty_pool(capacity);
    let k = orders.len();
    if k == 0 {
        assert(p0.free =~= Seq::new(capacity, |i: int| (i + 0) as u32));
    } else {
        law_fresh_pool_takes_capacity_orders(capacity, orders.drop_last());
        let prev = insert_all(p0, orders.drop_last());
        assert(prev.free.len() > 0);
        assert(insert_all(p0, orders) == prev.after_insert(orders.last()));
        assert(prev.after_insert(orders.last()).free =~= Seq::new(
            (capacity - k) as nat,
            |i: int| (i + k) as u32,
        ));
    }
}

pub broadcast group group_pool {
    OrderHandle::lemma_make,
    OrderHandle::lemma_handle_ext,
}

} // verus!

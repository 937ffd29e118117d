//! A typed pool ("slab") allocator.
//!
//! The allocator hands out slots of a single element type `T`. Storage is an
//! index-based arena: slots live in a growable sequence, and a handle
//! ([`SlabBox`]) names its slot by index together with a generation stamp, so
//! that a handle to a slot that has since been recycled is recognised instead
//! of silently aliasing the new occupant.
//!
//! Free slots are kept on a LIFO stack: the most recently released slot is the
//! next one reused. When no free slot remains the arena doubles its capacity
//! by carving one new batch ("chunk") of slots, equal in size to the current
//! capacity. Chunks are only ever appended; all of them are released together
//! when the allocator itself is dropped.
//!
//! Slot contents are never erased on release: a later dirty allocation
//! ([`SlabAllocator::dirty_alloc`]) exposes whatever value last occupied the
//! slot, by design.

use vstd::pervasive::unreached;
use vstd::prelude::*;

verus! {

/// Why a release through a handle was refused.
#[derive(Clone, Copy, Debug, PartialEq, Eq, Structural)]
pub enum SlabError {
    /// The handle does not name an outstanding slot of this arena: either its
    /// index lies outside the arena, or more releases than allocations have
    /// reached the slot.
    OverFree,
    /// The slot was released and recycled since this handle was made: the
    /// handle's generation stamp no longer matches the slot's.
    StaleHandle,
}

/// An access token for one slot of a [`SlabAllocator`].
///
/// A slot may be shared by several handles: each [`SlabBox::duplicate`] adds
/// one owner, and the slot returns to the free pool exactly when the last
/// owner is passed to [`SlabAllocator::free`].
pub struct SlabBox {
    index: usize,
    generation: u64,
}

/// A fixed-element-size memory pool handing out individually owned slots.
pub struct SlabAllocator<T> {
    /// Contents of each slot; `None` only in slots that were never written.
    slots: Vec<Option<T>>,
    /// Number of live handles per slot; `0` means the slot is free.
    refs: Vec<usize>,
    /// Generation stamp per slot, advanced each time the slot is recycled.
    gens: Vec<u64>,
    /// Indices of the currently free slots, most recently freed last.
    free: Vec<usize>,
    /// Number of slots currently handed out.
    outstanding: usize,
    /// Size of each batch of slots ever carved, in order of creation.
    chunks: Vec<usize>,
}

/// The sequence `hi - 1, hi - 2, ..., lo`: the order in which a freshly carved
/// batch of slots enters the free stack, so that the lowest index is reused
/// first.
pub open spec fn desc_range(lo: int, hi: int) -> Seq<usize> {
    Seq::new(if lo <= hi { (hi - lo) as nat } else { 0 }, |k: int| (hi - 1 - k) as usize)
}

/// The generation stamp a slot carries after being recycled once more.
pub open spec fn next_gen(g: u64) -> u64 {
    if g == u64::MAX {
        0
    } else {
        (g + 1) as u64
    }
}

/// A stack of `n` distinct slot indices, all below `n`, holds every index
/// below `n`.
proof fn lemma_full_free_stack_covers(s: Seq<usize>, n: int)
    requires
        s.len() == n,
        forall|j: int, k: int| 0 <= j < k < s.len() ==> s[j] != s[k],
        forall|j: int| 0 <= j < s.len() ==> s[j] < n,
    ensures
        forall|v: usize| v < n ==> #[trigger] s.contains(v),
{
    broadcast use vstd::seq_lib::seq_to_set_is_finite;
    broadcast use vstd::set::group_set_axioms;

    let f = |x: usize| x as int;
    let si = s.map_values(f);
    assert(s.no_duplicates());
    s.lemma_no_duplicates_injective(f);
    si.unique_seq_to_set();
    assert(si.to_set().subset_of(vstd::set_lib::set_int_range(0, n))) by {
        assert forall|x: int| si.to_set().contains(x) implies vstd::set_lib::set_int_range(
            0,
            n,
        ).contains(x) by {
            let w = choose|w: int| 0 <= w < si.len() && si[w] == x;
            assert(s[w] < n);
        }
    }
    vstd::set_lib::lemma_int_range(0, n);
    vstd::set_lib::lemma_subset_equality(si.to_set(), vstd::set_lib::set_int_range(0, n));
    assert forall|v: usize| v < n implies s.contains(v) by {
        assert(vstd::set_lib::set_int_range(0, n).contains(v as int));
        assert(si.to_set().contains(v as int));
        let w = choose|w: int| 0 <= w < si.len() && si[w] == v as int;
        assert(s[w] == v);
    }
}

/// One kind of step a pool history is made of.
#[derive(Clone, Copy, Debug, PartialEq, Eq, Structural)]
pub enum PoolStep {
    /// An allocation handed a slot out.
    Alloc,
    /// A release took one owner of a still-shared slot away.
    SharedRelease,
    /// A release took a slot's last owner away: the slot went back to the
    /// free pool.
    LastRelease,
}

/// The states `pre` and `post` are linked by a step of kind `s`.
pub open spec fn matches_step<T>(
    pre: SlabAllocator<T>,
    post: SlabAllocator<T>,
    s: PoolStep,
) -> bool {
    match s {
        PoolStep::Alloc => exists|h: SlabBox| #[trigger] SlabAllocator::alloc_step(pre, post, h),
        PoolStep::SharedRelease => exists|i: int|
            pre.slot_refs(i) > 1 && #[trigger] SlabAllocator::free_step(pre, post, i),
        PoolStep::LastRelease => exists|i: int|
            pre.slot_refs(i) == 1 && #[trigger] SlabAllocator::free_step(pre, post, i),
    }
}

/// Number of allocations in a history.
pub open spec fn alloc_count(steps: Seq<PoolStep>) -> int
    decreases steps.len(),
{
    if steps.len() == 0 {
        0
    } else {
        alloc_count(steps.drop_last()) + if steps.last() is Alloc {
            1int
        } else {
            0int
        }
    }
}

/// Number of slots released in a history: only a slot's last owner leaving
/// releases the slot.
pub open spec fn release_count(steps: Seq<PoolStep>) -> int
    decreases steps.len(),
{
    if steps.len() == 0 {
        0
    } else {
        release_count(steps.drop_last()) + if steps.last() is LastRelease {
            1int
        } else {
            0int
        }
    }
}

/// Over any sequence of allocations and releases, at every point the number
/// of slots handed out equals the allocations made so far minus the slots
/// released so far, and never exceeds the capacity.
pub proof fn lemma_outstanding_counts_operations<T>(
    states: Seq<SlabAllocator<T>>,
    steps: Seq<PoolStep>,
)
    requires
        states.len() == steps.len() + 1,
        forall|k: int| 0 <= k < states.len() ==> (#[trigger] states[k]).wf(),
        forall|k: int|
            0 <= k < steps.len() ==> matches_step(states[k], states[k + 1], #[trigger] steps[k]),
    ensures
        states.last().outstanding() == states.first().outstanding() + alloc_count(steps)
            - release_count(steps),
        forall|k: int|
            0 <= k < states.len() ==> 0 <= (#[trigger] states[k]).outstanding()
                <= states[k].capacity(),
    decreases steps.len(),
{
    assert forall|k: int|
        0 <= k < states.len() implies 0 <= (#[trigger] states[k]).outstanding()
        <= states[k].capacity() by {
        lemma_outstanding_bounded(&states[k]);
    }
    if steps.len() > 0 {
        let n = steps.len();
        lemma_outstanding_counts_operations(states.drop_last(), steps.drop_last());
        assert(states.drop_last().last() == states[n - 1]);
        assert(states.drop_last().first() == states.first());
        match steps.last() {
            PoolStep::Alloc => {
                let h = choose|h: SlabBox|
                    #[trigger] SlabAllocator::alloc_step(states[n - 1], states[n as int], h);
                assert(states[n as int].outstanding() == states[n - 1].outstanding() + 1);
            },
            PoolStep::SharedRelease => {
                let i = choose|i: int|
                    states[n - 1].slot_refs(i) > 1 && #[trigger] SlabAllocator::free_step(
                        states[n - 1],
                        states[n as int],
                        i,
                    );
                assert(states[n as int].outstanding() == states[n - 1].outstanding());
            },
            PoolStep::LastRelease => {
                let i = choose|i: int|
                    states[n - 1].slot_refs(i) == 1 && #[trigger] SlabAllocator::free_step(
                        states[n - 1],
                        states[n as int],
                        i,
                    );
                assert(states[n as int].outstanding() == states[n - 1].outstanding() - 1);
            },
        }
    }
}

/// At every reachable state the bookkeeping counters agree: the free pool
/// holds exactly `capacity - outstanding` slots, so the number of slots
/// handed out never exceeds the number of slots carved.
pub proof fn lemma_outstanding_bounded<T>(a: &SlabAllocator<T>)
    requires
        a.wf(),
    ensures
        0 <= a.outstanding() <= a.capacity(),
        a.free_list().len() == a.capacity() - a.outstanding(),
{
}

/// Growth is triggered exactly when every slot is handed out: the free pool
/// is empty if and only if `outstanding == capacity`, and an allocation made
/// in that state doubles the capacity by carving exactly one new chunk.
pub proof fn lemma_growth_doubles<T>(pre: SlabAllocator<T>, post: SlabAllocator<T>, h: SlabBox)
    requires
        pre.wf(),
        SlabAllocator::alloc_step(pre, post, h),
    ensures
        pre.free_list().len() == 0 <==> pre.outstanding() == pre.capacity(),
        pre.outstanding() == pre.capacity() ==> post.capacity() == 2 * pre.capacity()
            && post.chunk_sizes() == pre.chunk_sizes().push(pre.capacity() as usize),
        pre.outstanding() < pre.capacity() ==> post.capacity() == pre.capacity()
            && post.chunk_sizes() == pre.chunk_sizes(),
        post.outstanding() == pre.outstanding() + 1,
{
}

/// The free pool is LIFO: after the last owner of slot `a_id` and then the
/// last owner of slot `b_id` are released, the next allocation reuses
/// `b_id`, the slot released most recently.
pub proof fn lemma_lifo_reuse<T>(
    s0: SlabAllocator<T>,
    s1: SlabAllocator<T>,
    s2: SlabAllocator<T>,
    s3: SlabAllocator<T>,
    a_id: int,
    b_id: int,
    h: SlabBox,
)
    requires
        0 <= a_id <= usize::MAX,
        0 <= b_id <= usize::MAX,
        s0.slot_refs(a_id) == 1,
        SlabAllocator::free_step(s0, s1, a_id),
        s1.slot_refs(b_id) == 1,
        SlabAllocator::free_step(s1, s2, b_id),
        SlabAllocator::alloc_step(s2, s3, h),
    ensures
        h.id() == b_id,
{
    assert(s2.free_list().last() == b_id as usize);
}

/// Over-free is detected: while no slot is outstanding no handle is valid,
/// so every release is refused rather than silently accepted.
pub proof fn lemma_overfree_detected<T>(a: &SlabAllocator<T>, h: SlabBox)
    requires
        a.wf(),
        a.outstanding() == 0,
    ensures
        !a.valid_handle(h),
{
    if a.valid_handle(h) {
        lemma_full_free_stack_covers(a.free@, a.slots@.len() as int);
        assert(a.free@.contains(h.id() as usize));
        let w = choose|w: int| 0 <= w < a.free@.len() && a.free@[w] == h.id() as usize;
        assert(a.refs@[a.free@[w] as int] == 0);
        assert(false);
    }
}

/// Releasing a slot does not erase it: when the slot whose last owner was
/// just released is handed out again by a dirty allocation, the new handle
/// sees the value the released occupant left behind.
pub proof fn lemma_stale_content_survives<T>(
    s0: SlabAllocator<T>,
    s1: SlabAllocator<T>,
    s2: SlabAllocator<T>,
    i: int,
    h: SlabBox,
)
    requires
        0 <= i < s0.capacity(),
        SlabAllocator::free_step(s0, s1, i),
        SlabAllocator::alloc_step(s1, s2, h),
        h.id() < s1.capacity() ==> s2.slot_content(h.id()) == s1.slot_content(h.id()),
    ensures
        h.id() == i ==> s2.slot_content(i) == s0.slot_content(i),
{
}

impl SlabBox {
    /// The index of the slot this handle names.
    pub closed spec fn id(&self) -> int {
        self.index as int
    }

    /// The generation stamp the handle was made with.
    pub closed spec fn stamp(&self) -> u64 {
        self.generation
    }

    /// The index of the slot this handle names.
    pub fn slot_index(&self) -> (r: usize)
        ensures
            r as int == self.id(),
    {
        self.index
    }
}

impl<T> SlabAllocator<T> {
    /// Total number of slots ever carved, free or handed out.
    pub closed spec fn capacity(&self) -> int {
        self.slots@.len() as int
    }

    /// Number of slots currently handed out.
    pub closed spec fn outstanding(&self) -> int {
        self.outstanding as int
    }

    /// Indices of the currently free slots; the last is the next one reused.
    pub closed spec fn free_list(&self) -> Seq<usize> {
        self.free@
    }

    /// Number of live handles on slot `i`.
    pub closed spec fn slot_refs(&self, i: int) -> int {
        self.refs@[i] as int
    }

    /// Generation stamp of slot `i`.
    pub closed spec fn slot_gen(&self, i: int) -> u64 {
        self.gens@[i]
    }

    /// Content of slot `i`; `None` only while the slot was never written.
    pub closed spec fn slot_content(&self, i: int) -> Option<T> {
        self.slots@[i]
    }

    /// Sizes of the batches of slots carved so far, in order of creation.
    pub closed spec fn chunk_sizes(&self) -> Seq<usize> {
        self.chunks@
    }

    /// A handle is valid while it names a slot of this arena whose generation
    /// it carries and which is still handed out.
    pub open spec fn valid_handle(&self, h: SlabBox) -> bool {
        &&& 0 <= h.id() < self.capacity()
        &&& self.slot_gen(h.id()) == h.stamp()
        &&& self.slot_refs(h.id()) > 0
    }

    /// Slot `i` holds a value (it was written at least once).
    pub open spec fn slot_written(&self, i: int) -> bool {
        self.slot_content(i) is Some
    }

    /// The allocator's internal bookkeeping is coherent: every slot is either
    /// on the free stack (with no live handle) or handed out, never both, and
    /// `outstanding` counts exactly the slots off the stack.
    pub closed spec fn wf(&self) -> bool {
        &&& self.refs@.len() == self.slots@.len()
        &&& self.gens@.len() == self.slots@.len()
        &&& self.outstanding + self.free@.len() == self.slots@.len()
        &&& (forall|j: int, k: int|
            0 <= j < k < self.free@.len() ==> self.free@[j] != self.free@[k])
        &&& (forall|j: int|
            0 <= j < self.free@.len() ==> self.free@[j] < self.slots@.len()
                && self.refs@[#[trigger] self.free@[j] as int] == 0)
        &&& (forall|i: int|
            0 <= i < self.slots@.len() && #[trigger] self.refs@[i] == 0
                ==> self.free@.contains(i as usize))
    }

    /// Pre-allocates one chunk of `initial_size` slots, all free.
    pub fn new(initial_size: usize) -> (a: Self)
        ensures
            a.wf(),
            a.capacity() == initial_size,
            a.outstanding() == 0,
            a.free_list() == desc_range(0, initial_size as int),
            a.chunk_sizes() == seq![initial_size],
            forall|i: int|
                0 <= i < initial_size
                    ==> a.slot_refs(i) == 0 && a.slot_gen(i) == 0 && a.slot_content(i) is None,
    {
        let mut a = SlabAllocator {
            slots: Vec::new(),
            refs: Vec::new(),
            gens: Vec::new(),
            free: Vec::new(),
            outstanding: 0,
            chunks: Vec::new(),
        };
        a.expand(initial_size);
        proof {
            assert(a.free_list() =~= desc_range(0, initial_size as int));
            assert(a.chunk_sizes() =~= seq![initial_size]);
        }
        a
    }

    /// Carves one new chunk of `new_items` slots and stacks them onto the
    /// free pool, lowest index on top.
    fn expand(&mut self, new_items: usize)
        requires
            old(self).wf(),
            old(self).capacity() + new_items <= usize::MAX,
        ensures
            final(self).wf(),
            final(self).capacity() == old(self).capacity() + new_items,
            final(self).outstanding() == old(self).outstanding(),
            final(self).free_list() == old(self).free_list() + desc_range(
                old(self).capacity(),
                old(self).capacity() + new_items,
            ),
            final(self).chunk_sizes() == old(self).chunk_sizes().push(new_items),
            forall|i: int|
                0 <= i < old(self).capacity()
                    ==> final(self).slot_refs(i) == old(self).slot_refs(i)
                        && final(self).slot_gen(i) == old(self).slot_gen(i)
                        && final(self).slot_content(i) == old(self).slot_content(i),
            forall|i: int|
                old(self).capacity() <= i < final(self).capacity()
                    ==> final(self).slot_refs(i) == 0 && final(self).slot_gen(i) == 0
                        && final(self).slot_content(i) is None,
    {
        let n = self.slots.len();
        self.chunks.push(new_items);
        let mut k: usize = 0;
        while k < new_items
            invariant
                old(self).wf(),
                n == old(self).capacity(),
                n + new_items <= usize::MAX,
                k <= new_items,
                self.slots@ == old(self).slots@ + Seq::new(k as nat, |j: int| None::<T>),
                self.refs@ == old(self).refs@ + Seq::new(k as nat, |j: int| 0usize),
                self.gens@ == old(self).gens@ + Seq::new(k as nat, |j: int| 0u64),
                self.free@ == old(self).free@ + desc_range(
                    n + new_items - k,
                    n + new_items as int,
                ),
                self.outstanding == old(self).outstanding,
                self.chunks@ == old(self).chunks@.push(new_items),
            decreases new_items - k,
        {
            self.slots.push(None);
            self.refs.push(0);
            self.gens.push(0);
            self.free.push(n + (new_items - 1 - k));
            k = k + 1;
            proof {
                assert(self.free@ =~= old(self).free@ + desc_range(
                    n + new_items - k,
                    n + new_items as int,
                ));
            }
        }
        proof {
            assert(self.free@ =~= old(self).free@ + desc_range(
                n as int,
                n + new_items as int,
            ));
            let base = old(self).free@.len() as int;
            assert forall|j: int, l: int| 0 <= j < l < self.free@.len() implies self.free@[j]
                != self.free@[l] by {
                if l >= base {
                    assert(self.free@[l] >= n);
                    if j >= base {
                        assert(self.free@[j] == n + new_items - 1 - (j - base));
                        assert(self.free@[l] == n + new_items - 1 - (l - base));
                    } else {
                        assert(old(self).free@[j] < n);
                    }
                }
            }
            assert forall|j: int|
                0 <= j < self.free@.len() implies self.free@[j] < self.slots@.len()
                && self.refs@[#[trigger] self.free@[j] as int] == 0 by {
                if j < base {
                    assert(self.free@[j] == old(self).free@[j]);
                    assert(old(self).free@[j] < n);
                    assert(self.refs@[self.free@[j] as int] == old(self).refs@[self.free@[j] as int]);
                } else {
                    assert(self.free@[j] == n + new_items - 1 - (j - base));
                }
            }
            assert forall|i: int|
                0 <= i < self.slots@.len() && #[trigger] self.refs@[i] == 0 implies self.free@
                .contains(i as usize) by {
                if i < n {
                    assert(old(self).refs@[i] == 0);
                    let w = choose|w: int|
                        0 <= w < old(self).free@.len() && old(self).free@[w] == i as usize;
                    assert(self.free@[w] == i as usize);
                } else {
                    let w = base + (n + new_items - 1 - i);
                    assert(self.free@[w] == i as usize);
                }
            }
        }
    }

    /// How an allocation moves the arena from `pre` to `post`, handing out
    /// `h`: the top of the free stack is reused when one is free (LIFO);
    /// otherwise capacity doubles by carving one new chunk and the first new
    /// slot is handed out. Exactly one slot changes state.
    pub open spec fn alloc_step(pre: Self, post: Self, h: SlabBox) -> bool {
        &&& post.valid_handle(h)
        &&& post.slot_refs(h.id()) == 1
        &&& post.slot_gen(h.id()) == h.stamp()
        &&& post.outstanding() == pre.outstanding() + 1
        &&& (pre.free_list().len() > 0 ==> {
            &&& h.id() == pre.free_list().last() as int
            &&& h.stamp() == pre.slot_gen(h.id())
            &&& pre.slot_refs(h.id()) == 0
            &&& post.capacity() == pre.capacity()
            &&& post.free_list() == pre.free_list().drop_last()
            &&& post.chunk_sizes() == pre.chunk_sizes()
        })
        &&& (pre.free_list().len() == 0 ==> {
            &&& h.id() == pre.capacity()
            &&& h.stamp() == 0
            &&& post.capacity() == 2 * pre.capacity()
            &&& post.free_list() == desc_range(pre.capacity() + 1, post.capacity())
            &&& post.chunk_sizes() == pre.chunk_sizes().push(pre.capacity() as usize)
        })
        &&& (forall|i: int|
            0 <= i < pre.capacity() && i != h.id()
                ==> post.slot_refs(i) == pre.slot_refs(i) && post.slot_gen(i) == pre.slot_gen(i)
                    && post.slot_content(i) == pre.slot_content(i))
        &&& (forall|i: int|
            pre.capacity() <= i < post.capacity()
                ==> post.slot_gen(i) == 0 && (i != h.id() ==> post.slot_refs(i) == 0
                    && post.slot_content(i) is None))
    }

    /// Takes a free slot, growing the arena if none is left, marks it
    /// outstanding and, with `Some(value)`, writes `value` into it; with
    /// `None` the slot keeps whatever it held before.
    fn all_alloc(&mut self, value: Option<T>) -> (h: SlabBox)
        requires
            old(self).wf(),
            old(self).free_list().len() == 0 ==> 1 <= old(self).capacity()
                && 2 * old(self).capacity() <= usize::MAX,
        ensures
            final(self).wf(),
            Self::alloc_step(*old(self), *final(self), h),
            value is Some ==> final(self).slot_content(h.id()) == value,
            value is None && h.id() < old(self).capacity()
                ==> final(self).slot_content(h.id()) == old(self).slot_content(h.id()),
            value is None && h.id() >= old(self).capacity()
                ==> final(self).slot_content(h.id()) is None,
    {
        if self.free.len() == 0 {
            let cap = self.slots.len();
            self.expand(cap);
        }
        let ghost mid = *self;
        let idx = match self.free.pop() {
            Some(i) => i,
            None => unreached(),
        };
        proof {
            assert(idx == mid.free@[mid.free@.len() - 1]);
            assert(self.free@ == mid.free@.drop_last());
            assert(idx < self.slots@.len() && self.refs@[idx as int] == 0);
            assert(mid.outstanding + mid.free@.len() == mid.slots@.len());
        }
        let generation = self.gens[idx];
        match value {
            Some(v) => {
                let slot = &mut self.slots[idx];
                *slot = Some(v);
            },
            None => { /* the slot keeps its prior, possibly stale, content */ },
        }
        let slot_refs = &mut self.refs[idx];
        *slot_refs = 1;
        let cap_now = self.slots.len();
        proof {
            assert(self.refs@ == mid.refs@.update(idx as int, 1usize));
            assert(cap_now == self.slots@.len());
            assert(self.outstanding < cap_now);
        }
        self.outstanding = self.outstanding + 1;
        let h = SlabBox { index: idx, generation };
        proof {
            assert forall|i: int|
                0 <= i < self.slots@.len() && #[trigger] self.refs@[i] == 0 implies self.free@
                .contains(i as usize) by {
                assert(0 <= i < cap_now);
                assert(i != idx as int);
                assert(mid.refs@[i] == 0);
                assert(mid.free@.contains(i as usize));
                let w = choose|w: int| 0 <= w < mid.free@.len() && mid.free@[w] == i as usize;
                assert(mid.free@[mid.free@.len() - 1] == idx);
                assert(mid.free@[w] as int == i);
                assert(w != mid.free@.len() - 1);
                assert(self.free@[w] == i as usize);
            }
            if old(self).free@.len() == 0 {
                let pre_cap = old(self).capacity();
                assert(self.free@ =~= desc_range(pre_cap + 1, self.capacity()));
                assert(mid.slot_gen(idx as int) == 0);
                assert(mid.capacity() == 2 * pre_cap);
                assert forall|i: int|
                    pre_cap <= i < self.capacity() implies self.slot_gen(i) == 0 && (i != h.id()
                    ==> self.slot_refs(i) == 0 && self.slot_content(i) is None) by {
                    assert(pre_cap <= i < mid.capacity());
                    assert(mid.slot_refs(i) == 0);
                    assert(mid.slot_gen(i) == 0);
                    assert(mid.slot_content(i) is None);
                }
            }
        }
        h
    }

    /// Obtains a free slot (growing if none is available), writes `value`
    /// into it, marks it outstanding and returns a handle to it.
    pub fn allocate(&mut self, value: T) -> (h: SlabBox)
        requires
            old(self).wf(),
            old(self).free_list().len() == 0 ==> 1 <= old(self).capacity()
                && 2 * old(self).capacity() <= usize::MAX,
        ensures
            final(self).wf(),
            Self::alloc_step(*old(self), *final(self), h),
            final(self).slot_content(h.id()) == Some(value),
    {
        self.all_alloc(Some(value))
    }

    /// The same slot-acquisition path as [`Self::allocate`], but nothing is
    /// written: the slot keeps the stale value of its previous, since
    /// released, occupant, or holds no value yet if it was never written.
    /// The caller is expected to overwrite the slot before reading it;
    /// [`SlabBox::borrow`] refuses a never-written slot by precondition.
    pub fn dirty_alloc(&mut self) -> (h: SlabBox)
        requires
            old(self).wf(),
            old(self).free_list().len() == 0 ==> 1 <= old(self).capacity()
                && 2 * old(self).capacity() <= usize::MAX,
        ensures
            final(self).wf(),
            Self::alloc_step(*old(self), *final(self), h),
            h.id() < old(self).capacity()
                ==> final(self).slot_content(h.id()) == old(self).slot_content(h.id()),
            h.id() >= old(self).capacity() ==> final(self).slot_content(h.id()) is None,
    {
        self.all_alloc(None)
    }

    /// How one release moves the arena from `pre` to `post` through a valid
    /// handle on slot `i`: one owner leaves; when it was the last, the slot
    /// goes back on top of the free stack and its generation advances. No
    /// slot's content changes: freed memory is not zeroed.
    pub open spec fn free_step(pre: Self, post: Self, i: int) -> bool {
        &&& post.capacity() == pre.capacity()
        &&& post.chunk_sizes() == pre.chunk_sizes()
        &&& post.slot_refs(i) == pre.slot_refs(i) - 1
        &&& (forall|j: int|
            0 <= j < pre.capacity() && j != i ==> post.slot_refs(j) == pre.slot_refs(j)
                && post.slot_gen(j) == pre.slot_gen(j))
        &&& (forall|j: int|
            0 <= j < pre.capacity() ==> post.slot_content(j) == pre.slot_content(j))
        &&& (pre.slot_refs(i) > 1 ==> post.outstanding() == pre.outstanding()
            && post.free_list() == pre.free_list() && post.slot_gen(i) == pre.slot_gen(i))
        &&& (pre.slot_refs(i) == 1 ==> post.outstanding() == pre.outstanding() - 1
            && post.free_list() == pre.free_list().push(i as usize)
            && post.slot_gen(i) == next_gen(pre.slot_gen(i)))
    }

    /// Releases one ownership of the slot `h` names. When `h` was the last
    /// owner, the slot returns to the free pool (LIFO) and its generation
    /// advances, so that handles left over from before the release are
    /// recognised as stale. An invalid handle is refused and the allocator is
    /// left untouched: over-freeing is detected, never silently accepted.
    pub fn free(&mut self, h: SlabBox) -> (r: Result<(), SlabError>)
        requires
            old(self).wf(),
        ensures
            final(self).wf(),
            r is Ok <==> old(self).valid_handle(h),
            r is Err ==> *final(self) == *old(self),
            !old(self).valid_handle(h) && 0 <= h.id() < old(self).capacity() && old(self).slot_gen(
                h.id(),
            ) != h.stamp() ==> r == Err::<(), SlabError>(SlabError::StaleHandle),
            !old(self).valid_handle(h) && !(0 <= h.id() < old(self).capacity() && old(
                self,
            ).slot_gen(h.id()) != h.stamp()) ==> r == Err::<(), SlabError>(SlabError::OverFree),
            old(self).valid_handle(h) ==> Self::free_step(*old(self), *final(self), h.id()),
    {
        let idx = h.index;
        if idx >= self.refs.len() {
            return Err(SlabError::OverFree);
        }
        if self.gens[idx] != h.generation {
            return Err(SlabError::StaleHandle);
        }
        let r = self.refs[idx];
        if r == 0 {
            return Err(SlabError::OverFree);
        }
        let ghost pre = *self;
        let slot_refs = &mut self.refs[idx];
        *slot_refs = r - 1;
        if r == 1 {
            let g = self.gens[idx];
            let slot_gen = &mut self.gens[idx];
            *slot_gen = if g == u64::MAX {
                0
            } else {
                g + 1
            };
            self.free.push(idx);
            proof {
                assert(self.free@ == pre.free@.push(idx));
                assert(pre.outstanding + pre.free@.len() == pre.slots@.len());
                assert(pre.outstanding >= 1) by {
                    if pre.outstanding == 0 {
                        lemma_full_free_stack_covers(pre.free@, pre.slots@.len() as int);
                        assert(pre.free@.contains(idx));
                        let w = choose|w: int| 0 <= w < pre.free@.len() && pre.free@[w] == idx;
                        assert(pre.refs@[pre.free@[w] as int] == 0);
                        assert(false);
                    }
                }
            }
            self.outstanding = self.outstanding - 1;
            proof {
                assert forall|j: int, k: int|
                    0 <= j < k < self.free@.len() implies self.free@[j] != self.free@[k] by {
                    if k == self.free@.len() - 1 {
                        assert(self.free@[j] == pre.free@[j]);
                        assert(pre.refs@[pre.free@[j] as int] == 0);
                    }
                }
                assert forall|i: int|
                    0 <= i < self.slots@.len() && #[trigger] self.refs@[i] == 0 implies self.free@
                    .contains(i as usize) by {
                    if i == idx as int {
                        assert(self.free@[self.free@.len() - 1] == idx);
                    } else {
                        assert(pre.refs@[i] == 0);
                        let w = choose|w: int|
                            0 <= w < pre.free@.len() && pre.free@[w] == i as usize;
                        assert(self.free@[w] == i as usize);
                    }
                }
            }
        } else {
            proof {
                assert forall|i: int|
                    0 <= i < self.slots@.len() && #[trigger] self.refs@[i] == 0 implies self.free@
                    .contains(i as usize) by {
                    assert(pre.refs@[i] == 0);
                }
            }
        }
        Ok(())
    }

    /// Read-only introspection: `(outstanding, capacity)`.
    pub fn stats(&self) -> (r: (usize, usize))
        ensures
            r.0 as int == self.outstanding(),
            r.1 as int == self.capacity(),
    {
        (self.outstanding, self.slots.len())
    }

    /// Number of chunks carved so far: one at creation, plus one per growth
    /// event.
    pub fn chunk_count(&self) -> (r: usize)
        ensures
            r as int == self.chunk_sizes().len(),
    {
        self.chunks.len()
    }
}

impl SlabBox {
    /// Whether this handle still names the slot it was made for: its
    /// generation stamp is current and the slot is outstanding. A handle kept
    /// across the release of its last owner fails this check explicitly
    /// instead of silently touching recycled memory.
    pub fn is_valid<T>(&self, a: &SlabAllocator<T>) -> (r: bool)
        requires
            a.wf(),
        ensures
            r == a.valid_handle(*self),
    {
        proof {
            assert(a.refs@.len() == a.slots@.len());
            assert(a.gens@.len() == a.slots@.len());
        }
        self.index < a.refs.len() && a.gens[self.index] == self.generation && a.refs[self.index]
            > 0
    }

    /// Whether the slot this handle names already holds a value. Only a
    /// dirty allocation of a never-written slot leaves it without one.
    pub fn is_written<T>(&self, a: &SlabAllocator<T>) -> (r: bool)
        requires
            a.wf(),
            a.valid_handle(*self),
        ensures
            r == a.slot_written(self.id()),
    {
        proof {
            assert(a.refs@.len() == a.slots@.len());
        }
        match &a.slots[self.index] {
            Some(_) => true,
            None => false,
        }
    }

    /// Adds one owner of the same slot: the slot's reference count rises by
    /// one and stays shared until each owner is released.
    pub fn duplicate<T>(&self, a: &mut SlabAllocator<T>) -> (h: SlabBox)
        requires
            old(a).wf(),
            old(a).valid_handle(*self),
            old(a).slot_refs(self.id()) < usize::MAX,
        ensures
            final(a).wf(),
            h.id() == self.id(),
            h.stamp() == self.stamp(),
            final(a).valid_handle(h),
            final(a).valid_handle(*self),
            final(a).slot_refs(self.id()) == old(a).slot_refs(self.id()) + 1,
            final(a).capacity() == old(a).capacity(),
            final(a).outstanding() == old(a).outstanding(),
            final(a).free_list() == old(a).free_list(),
            final(a).chunk_sizes() == old(a).chunk_sizes(),
            forall|j: int|
                0 <= j < old(a).capacity() ==> final(a).slot_gen(j) == old(a).slot_gen(j)
                    && final(a).slot_content(j) == old(a).slot_content(j),
            forall|j: int|
                0 <= j < old(a).capacity() && j != self.id() ==> final(a).slot_refs(j) == old(
                    a,
                ).slot_refs(j),
    {
        let ghost pre = *a;
        let idx = self.index;
        let r = a.refs[idx];
        let slot_refs = &mut a.refs[idx];
        *slot_refs = r + 1;
        proof {
            assert(a.refs@ == pre.refs@.update(idx as int, (r + 1) as usize));
            assert forall|i: int|
                0 <= i < a.slots@.len() && #[trigger] a.refs@[i] == 0 implies a.free@.contains(
                i as usize,
            ) by {
                assert(pre.refs@[i] == 0);
            }
        }
        SlabBox { index: idx, generation: self.generation }
    }

    /// Runtime-checked shared access to the slot this handle names.
    pub fn borrow<'a, T>(&self, a: &'a SlabAllocator<T>) -> (r: &'a T)
        requires
            a.wf(),
            a.valid_handle(*self),
            a.slot_written(self.id()),
        ensures
            a.slot_content(self.id()) == Some(*r),
    {
        proof {
            assert(a.refs@.len() == a.slots@.len());
        }
        match &a.slots[self.index] {
            Some(v) => v,
            None => unreached(),
        }
    }

    /// Exclusive access to the slot this handle names. Exclusivity is what
    /// the borrow of the allocator enforces: while the returned reference
    /// lives, no other borrow can reach any slot, so no clone of this handle
    /// can observe or race the mutation.
    pub fn borrow_mut<'a, T>(&self, a: &'a mut SlabAllocator<T>) -> (r: &'a mut T)
        requires
            old(a).wf(),
            old(a).valid_handle(*self),
            old(a).slot_written(self.id()),
        ensures
            old(a).slot_content(self.id()) == Some(*r),
            final(a).wf(),
            final(a).slot_content(self.id()) == Some(*final(r)),
            final(a).capacity() == old(a).capacity(),
            final(a).outstanding() == old(a).outstanding(),
            final(a).free_list() == old(a).free_list(),
            final(a).chunk_sizes() == old(a).chunk_sizes(),
            final(a).valid_handle(*self),
            forall|j: int|
                0 <= j < old(a).capacity() ==> final(a).slot_refs(j) == old(a).slot_refs(j)
                    && final(a).slot_gen(j) == old(a).slot_gen(j),
            forall|j: int|
                0 <= j < old(a).capacity() && j != self.id() ==> final(a).slot_content(j) == old(
                    a,
                ).slot_content(j),
    {
        proof {
            assert(old(a).refs@.len() == old(a).slots@.len());
        }
        let slot = &mut a.slots[self.index];
        match slot {
            Some(v) => v,
            None => unreached(),
        }
    }
}

} // verus!

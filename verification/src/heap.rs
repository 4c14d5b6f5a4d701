//! The object heap: generational handles, a free list, and a mark-sweep
//! collector.
//!
//! Aggregates have reference semantics, so cycles can be built and a tracing
//! collector is what reclaims them. Objects live in a slab and are addressed
//! by [`Handle`], an index paired with a generation counter. Freeing a slot
//! moves its generation on, so a handle to a freed object is detected rather
//! than silently reading whatever moved in.
use vstd::prelude::*;

verus! {

/// A reference to a heap object: a slot and the generation it was issued in.
#[derive(Clone, Copy, PartialEq, Eq, Hash, Debug, Structural)]
pub struct Handle {
    index: u32,
    generation: u32,
}

impl Handle {
    /// The slot this handle addresses.
    pub closed spec fn slot(self) -> u32 {
        self.index
    }

    /// The generation this handle was issued in.
    pub closed spec fn issued(self) -> u32 {
        self.generation
    }

    /// The slot this handle addresses. Exposed for disassembly and debugging.
    pub fn index(self) -> (r: u32)
        ensures
            r == self.slot(),
    {
        self.index
    }

    pub fn generation(self) -> (r: u32)
        ensures
            r == self.issued(),
    {
        self.generation
    }
}

/// Two handles are the same handle when slot and generation agree.
pub proof fn lemma_handle_ext(a: Handle, b: Handle)
    requires
        a.slot() == b.slot(),
        a.issued() == b.issued(),
    ensures
        a == b,
{
}

/// Using a handle whose object is gone.
#[derive(Clone, Copy, PartialEq, Eq, Debug, Structural)]
pub struct DeadHandle(pub Handle);

/// How the collector finds the objects an object points at.
///
/// An implementation pushes every handle it holds; the collector keeps
/// exactly what these edges reach from the roots.
pub trait Trace {
    /// The handles this object holds, in the order `trace` pushes them.
    /// An implementation that holds handles states which.
    open spec fn edges(&self) -> Seq<Handle> {
        Seq::empty()
    }

    fn trace(&self, edges: &mut Vec<Handle>)
        ensures
            final(edges)@ == old(edges)@ + self.edges(),
    ;
}

enum Slot<T> {
    Empty { generation: u32 },
    Full { generation: u32, value: T },
}

impl<T> Slot<T> {
    spec fn gen(self) -> u32 {
        match self {
            Slot::Empty { generation } => generation,
            Slot::Full { generation, .. } => generation,
        }
    }

    fn generation(&self) -> (r: u32)
        ensures
            r == self.gen(),
    {
        match self {
            Slot::Empty { generation } => *generation,
            Slot::Full { generation, .. } => *generation,
        }
    }
}

/// How many slots of `s` are full.
spec fn count_full<T>(s: Seq<Slot<T>>) -> nat
    decreases s.len(),
{
    if s.len() == 0 {
        0
    } else {
        count_full(s.drop_last()) + if s.last() is Full {
            1nat
        } else {
            0nat
        }
    }
}

proof fn lemma_count_full_push<T>(s: Seq<Slot<T>>, x: Slot<T>)
    ensures
        count_full(s.push(x)) == count_full(s) + if x is Full {
            1nat
        } else {
            0nat
        },
{
    assert(s.push(x).drop_last() =~= s);
}

proof fn lemma_count_full_update<T>(s: Seq<Slot<T>>, i: int, x: Slot<T>)
    requires
        0 <= i < s.len(),
    ensures
        count_full(s.update(i, x)) + (if s[i] is Full {
            1nat
        } else {
            0nat
        }) == count_full(s) + if x is Full {
            1nat
        } else {
            0nat
        },
        count_full(s) <= s.len(),
    decreases s.len(),
{
    lemma_count_full_bound(s);
    if i < s.len() - 1 {
        lemma_count_full_update(s.drop_last(), i, x);
        assert(s.update(i, x).drop_last() =~= s.drop_last().update(i, x));
    } else {
        assert(s.update(i, x).drop_last() =~= s.drop_last());
    }
}

/// The live handles among the first `n` slots.
spec fn live_below<T>(slots: Seq<Slot<T>>, n: int) -> Set<Handle> {
    Set::new(
        |h: Handle|
            (h.index as int) < n && (h.index as int) < slots.len() && slots[h.index as int] is Full
                && slots[h.index as int].gen() == h.generation,
    )
}

proof fn lemma_live_below<T>(slots: Seq<Slot<T>>, n: int)
    requires
        0 <= n <= slots.len(),
        slots.len() <= u32::MAX + 1,
    ensures
        live_below(slots, n).finite(),
        live_below(slots, n).len() == count_full(slots.take(n)),
    decreases n,
{
    if n == 0 {
        assert(live_below(slots, 0) =~= Set::empty());
        assert(slots.take(0) =~= Seq::<Slot<T>>::empty());
    } else {
        lemma_live_below(slots, n - 1);
        assert(slots.take(n).drop_last() =~= slots.take(n - 1));
        if slots[n - 1] is Full {
            let h = Handle { index: (n - 1) as u32, generation: slots[n - 1].gen() };
            assert(live_below(slots, n) =~= live_below(slots, n - 1).insert(h));
            assert(!live_below(slots, n - 1).contains(h));
        } else {
            assert(live_below(slots, n) =~= live_below(slots, n - 1));
        }
    }
}

/// The empty slots among the first `n`.
spec fn empty_below<T>(slots: Seq<Slot<T>>, n: int) -> Set<u32> {
    Set::new(|i: u32| (i as int) < n && (i as int) < slots.len() && slots[i as int] is Empty)
}

proof fn lemma_empty_below<T>(slots: Seq<Slot<T>>, n: int)
    requires
        0 <= n <= slots.len(),
        slots.len() <= u32::MAX + 1,
    ensures
        empty_below(slots, n).finite(),
        empty_below(slots, n).len() + count_full(slots.take(n)) == n,
    decreases n,
{
    if n == 0 {
        assert(empty_below(slots, 0) =~= Set::empty());
        assert(slots.take(0) =~= Seq::<Slot<T>>::empty());
    } else {
        lemma_empty_below(slots, n - 1);
        assert(slots.take(n).drop_last() =~= slots.take(n - 1));
        if slots[n - 1] is Empty {
            assert(empty_below(slots, n) =~= empty_below(slots, n - 1).insert((n - 1) as u32));
            assert(!empty_below(slots, n - 1).contains((n - 1) as u32));
        } else {
            assert(empty_below(slots, n) =~= empty_below(slots, n - 1));
        }
    }
}

proof fn lemma_count_full_bound<T>(s: Seq<Slot<T>>)
    ensures
        count_full(s) <= s.len(),
    decreases s.len(),
{
    if s.len() > 0 {
        lemma_count_full_bound(s.drop_last());
    }
}

/// A slab of objects addressed by [`Handle`].
pub struct Heap<T: Trace> {
    slots: Vec<Slot<T>>,
    /// Indices of empty slots, reused before the slab grows.
    free: Vec<u32>,
    live: usize,
    /// Scratch buffers, kept between collections.
    mark: Vec<bool>,
    work: Vec<Handle>,
}

impl<T: Trace> Heap<T> {
    /// The heap's bookkeeping is consistent: every slot has an index that
    /// fits a handle, the free list holds each empty slot exactly once and
    /// nothing else, and the live count is the number of full slots.
    pub closed spec fn wf(&self) -> bool {
        &&& self.slots@.len() <= u32::MAX + 1
        &&& forall|j: int| 0 <= j < self.free@.len() ==> #[trigger] self.free@[j] < self.slots@.len()
        &&& forall|j: int|
            0 <= j < self.free@.len() ==> self.slots@[#[trigger] self.free@[j] as int] is Empty
        &&& forall|j: int, k: int|
            0 <= j < k < self.free@.len() ==> #[trigger] self.free@[j] != #[trigger] self.free@[k]
        &&& forall|i: int|
            0 <= i < self.slots@.len() && #[trigger] self.slots@[i] is Empty ==> self.free@.contains(
                i as u32,
            )
        &&& self.live == count_full(self.slots@)
    }

    /// How many slots the slab holds.
    pub closed spec fn slot_count(&self) -> nat {
        self.slots@.len()
    }

    /// The generation slot `i` is in now.
    pub closed spec fn slot_generation(&self, i: int) -> u32 {
        self.slots@[i].gen()
    }

    /// The empty slots, in the order they will be reused from the back.
    pub closed spec fn free_list(&self) -> Seq<u32> {
        self.free@
    }

    /// How many objects are alive.
    pub closed spec fn live_count(&self) -> nat {
        count_full(self.slots@)
    }

    /// Whether `h` names a live object: its slot exists, is full, and is in
    /// the generation `h` was issued in.
    pub closed spec fn holds(&self, h: Handle) -> bool {
        &&& (h.index as int) < self.slots@.len()
        &&& self.slots@[h.index as int] is Full
        &&& self.slots@[h.index as int].gen() == h.generation
    }

    /// The object `h` names, when it is live.
    pub closed spec fn object(&self, h: Handle) -> T {
        self.slots@[h.index as int]->value
    }

    /// Every live handle and the object it names.
    pub open spec fn contents(&self) -> Map<Handle, T> {
        Map::new(|h: Handle| self.holds(h), |h: Handle| self.object(h))
    }

    pub fn new() -> (r: Self)
        ensures
            r.wf(),
            r.contents() == Map::<Handle, T>::empty(),
            r.slot_count() == 0,
            r.free_list() == Seq::<u32>::empty(),
            r.live_count() == 0,
    {
        let r = Heap { slots: Vec::new(), free: Vec::new(), live: 0, mark: Vec::new(), work: Vec::new() };
        proof {
            assert(r.contents() =~= Map::<Handle, T>::empty());
        }
        r
    }

    /// The live count is the number of live handles.
    pub proof fn lemma_live_count(&self)
        requires
            self.wf(),
        ensures
            self.contents().dom().finite(),
            self.live_count() == self.contents().dom().len(),
    {
        lemma_live_below(self.slots@, self.slots@.len() as int);
        assert(self.slots@.take(self.slots@.len() as int) =~= self.slots@);
        assert(self.contents().dom() =~= live_below(self.slots@, self.slots@.len() as int));
    }

    /// Every slot is live or on the free list: the slab has room without
    /// growing exactly when it holds more slots than live objects.
    pub proof fn lemma_free_slots(&self)
        requires
            self.wf(),
        ensures
            self.free_list().len() + self.live_count() == self.slot_count(),
    {
        let f = self.free@;
        let n = self.slots@.len() as int;
        lemma_empty_below(self.slots@, n);
        assert(self.slots@.take(n) =~= self.slots@);
        assert forall|i: u32| f.to_set().contains(i) <==> empty_below(self.slots@, n).contains(i) by {
            if f.to_set().contains(i) {
                let j = choose|j: int| 0 <= j < f.len() && f[j] == i;
                assert(self.free@[j] < self.slots@.len());
            }
            if empty_below(self.slots@, n).contains(i) {
                assert(self.slots@[i as int] is Empty);
                assert(f.contains(i));
            }
        }
        assert(f.to_set() =~= empty_below(self.slots@, n));
        assert forall|a: int, b: int| 0 <= a < f.len() && 0 <= b < f.len() && a != b implies f[a] != f[b] by {
            if a < b {
                assert(self.free@[a] != self.free@[b]);
            } else {
                assert(self.free@[b] != self.free@[a]);
            }
        }
        assert(f.no_duplicates());
        f.unique_seq_to_set();
    }

    /// How many objects are currently alive.
    pub fn len(&self) -> (r: usize)
        requires
            self.wf(),
        ensures
            r == self.live_count(),
            r == self.contents().dom().len(),
    {
        proof {
            self.lemma_live_count();
        }
        self.live
    }

    pub fn is_empty(&self) -> (r: bool)
        requires
            self.wf(),
        ensures
            r == (self.live_count() == 0),
            r == (self.contents().dom().len() == 0),
    {
        proof {
            self.lemma_live_count();
        }
        self.live == 0
    }

    /// How many slots the slab holds, live and empty together.
    pub fn capacity(&self) -> (r: usize)
        ensures
            r == self.slot_count(),
    {
        self.slots.len()
    }

    /// Put an object on the heap, reusing the most recently emptied slot
    /// before growing the slab.
    pub fn allocate(&mut self, value: T) -> (r: Handle)
        requires
            old(self).wf(),
            old(self).free_list().len() > 0 || (old(self).slot_count() <= u32::MAX && old(self).slot_count()
                < usize::MAX),
        ensures
            final(self).wf(),
            !old(self).contents().contains_key(r),
            final(self).contents() == old(self).contents().insert(r, value),
            final(self).live_count() == old(self).live_count() + 1,
            final(self).slot_count() == if old(self).slot_count() > old(self).live_count() {
                old(self).slot_count()
            } else {
                old(self).slot_count() + 1
            },
            old(self).free_list().len() > 0 ==> {
                &&& r.slot() == old(self).free_list().last()
                &&& r.issued() == old(self).slot_generation(r.slot() as int)
                &&& final(self).free_list() == old(self).free_list().drop_last()
                &&& final(self).slot_count() == old(self).slot_count()
            },
            old(self).free_list().len() == 0 ==> {
                &&& r.slot() == old(self).slot_count()
                &&& r.issued() == 0
                &&& final(self).free_list() == old(self).free_list()
                &&& final(self).slot_count() == old(self).slot_count() + 1
            },
            forall|i: int|
                0 <= i < old(self).slot_count() ==> final(self).slot_generation(i) == old(self).slot_generation(i),
    {
        proof {
            self.lemma_free_slots();
            lemma_count_full_bound(self.slots@);
        }
        match self.free.pop() {
            Some(index) => {
                let ghost old_slots = self.slots@;
                let n = self.slots.len();
                proof {
                    let k = old(self).free@.len() - 1;
                    assert(self.free@ =~= old(self).free@.drop_last());
                    assert(old(self).free@[k] == index);
                    assert(old_slots[index as int] is Empty);
                    lemma_count_full_update(old_slots, index as int, Slot::Full { generation: 0, value });
                    lemma_count_full_bound(old_slots.update(index as int, Slot::Full { generation: 0, value }));
                }
                let generation = self.slots[index as usize].generation();
                self.slots.set(index as usize, Slot::Full { generation, value });
                self.live = self.live + 1;
                let h = Handle { index, generation };
                proof {
                    lemma_count_full_update(old_slots, index as int, Slot::Full { generation, value });
                    let k = old(self).free@.len() - 1;
                    assert forall|j: int| 0 <= j < self.free@.len() implies self.slots@[
                        #[trigger] self.free@[j] as int] is Empty by {
                        assert(self.free@[j] == old(self).free@[j]);
                        assert(old(self).free@[j] != old(self).free@[k]);
                    }
                    assert forall|i: int|
                        0 <= i < self.slots@.len() && #[trigger] self.slots@[i] is Empty implies self.free@.contains(
                        i as u32,
                    ) by {
                        assert(i != index);
                        assert(old(self).free@.contains(i as u32));
                        let j = choose|j: int| 0 <= j < old(self).free@.len() && old(self).free@[j] == i as u32;
                        assert(j != k);
                        assert(self.free@[j] == i as u32);
                    }
                    assert(self.contents() =~= old(self).contents().insert(h, value));
                }
                h
            },
            None => {
                let index = self.slots.len() as u32;
                let ghost old_slots = self.slots@;
                self.slots.push(Slot::Full { generation: 0, value });
                self.live = self.live + 1;
                let h = Handle { index, generation: 0 };
                proof {
                    lemma_count_full_push(old_slots, Slot::Full { generation: 0, value });
                    assert(self.free@ =~= old(self).free@);
                    assert forall|i: int|
                        0 <= i < self.slots@.len() && #[trigger] self.slots@[i] is Empty implies self.free@.contains(
                        i as u32,
                    ) by {
                        assert(i < old_slots.len());
                        assert(old_slots[i] is Empty);
                    }
                    assert forall|j: int| 0 <= j < self.free@.len() implies self.slots@[
                        #[trigger] self.free@[j] as int] is Empty by {
                        assert(old_slots[self.free@[j] as int] is Empty);
                    }
                    assert(self.contents() =~= old(self).contents().insert(h, value));
                }
                h
            },
        }
    }

    /// Whether this handle still names a live object.
    pub fn is_live(&self, h: Handle) -> (r: bool)
        ensures
            r == self.contents().contains_key(h),
    {
        let i = h.index as usize;
        if i < self.slots.len() {
            match &self.slots[i] {
                Slot::Full { generation, .. } => *generation == h.generation,
                Slot::Empty { .. } => false,
            }
        } else {
            false
        }
    }

    pub fn get(&self, h: Handle) -> (r: Result<&T, DeadHandle>)
        ensures
            match r {
                Ok(v) => self.contents().contains_key(h) && *v == self.contents()[h],
                Err(e) => !self.contents().contains_key(h) && e == DeadHandle(h),
            },
    {
        let i = h.index as usize;
        if i < self.slots.len() {
            match &self.slots[i] {
                Slot::Full { generation, value } => {
                    if *generation == h.generation {
                        return Ok(value);
                    }
                },
                Slot::Empty { .. } => {},
            }
        }
        Err(DeadHandle(h))
    }

    /// Release an object now, rather than waiting for a collection. Every
    /// handle to it becomes detectably dead.
    pub fn free(&mut self, h: Handle) -> (r: Result<T, DeadHandle>)
        requires
            old(self).wf(),
        ensures
            final(self).wf(),
            match r {
                Ok(v) => {
                    &&& old(self).contents().contains_key(h)
                    &&& v == old(self).contents()[h]
                    &&& final(self).contents() == old(self).contents().remove(h)
                    &&& final(self).free_list() == old(self).free_list().push(h.slot())
                    &&& final(self).live_count() + 1 == old(self).live_count()
                    &&& final(self).slot_generation(h.slot() as int) == (if h.issued() == u32::MAX {
                        0
                    } else {
                        h.issued() + 1
                    })
                    &&& forall|i: int|
                        0 <= i < old(self).slot_count() && i != h.slot() ==> final(self).slot_generation(i)
                            == old(self).slot_generation(i)
                },
                Err(e) => {
                    &&& !old(self).contents().contains_key(h)
                    &&& e == DeadHandle(h)
                    &&& *final(self) == *old(self)
                },
            },
            final(self).slot_count() == old(self).slot_count(),
    {
        if !self.is_live(h) {
            return Err(DeadHandle(h));
        }
        let i = h.index as usize;
        let next = h.generation.wrapping_add(1);
        let ghost old_slots = self.slots@;
        let mut taken = Slot::Empty { generation: next };
        self.slots.set_and_swap(i, &mut taken);
        self.free.push(h.index);
        proof {
            lemma_count_full_update(old_slots, i as int, Slot::Empty { generation: next });
        }
        self.live = self.live - 1;
        proof {
            assert forall|j: int| 0 <= j < self.free@.len() implies self.slots@[
                #[trigger] self.free@[j] as int] is Empty by {
                if j < old(self).free@.len() {
                    assert(old(self).free@[j] != h.index);
                }
            }
            assert forall|j: int, k: int| 0 <= j < k < self.free@.len() implies #[trigger] self.free@[j]
                != #[trigger] self.free@[k] by {
                if k == old(self).free@.len() {
                    assert(old_slots[old(self).free@[j] as int] is Empty);
                }
            }
            assert forall|x: int|
                0 <= x < self.slots@.len() && #[trigger] self.slots@[x] is Empty implies self.free@.contains(
                x as u32,
            ) by {
                if x == i {
                    assert(self.free@[self.free@.len() - 1] == x as u32);
                } else {
                    let j = choose|j: int| 0 <= j < old(self).free@.len() && old(self).free@[j] == x as u32;
                    assert(self.free@[j] == x as u32);
                }
            }
            assert(self.contents() =~= old(self).contents().remove(h));
        }
        match taken {
            Slot::Full { value, .. } => Ok(value),
            Slot::Empty { .. } => {
                proof {
                    assert(false);
                }
                Err(DeadHandle(h))
            },
        }
    }

    /// Every live handle, in slot order.
    pub fn live_handles(&self) -> (r: Vec<Handle>)
        requires
            self.wf(),
        ensures
            forall|k: int| 0 <= k < r@.len() ==> self.contents().contains_key(#[trigger] r@[k]),
            forall|h: Handle| self.contents().contains_key(h) ==> r@.contains(h),
            forall|j: int, k: int| 0 <= j < k < r@.len() ==> r@[j].slot() < r@[k].slot(),
    {
        let mut out: Vec<Handle> = Vec::new();
        let mut i: usize = 0;
        while i < self.slots.len()
            invariant
                i <= self.slots@.len(),
                self.slots@.len() <= u32::MAX + 1,
                forall|k: int| 0 <= k < out@.len() ==> self.contents().contains_key(#[trigger] out@[k]),
                forall|k: int| 0 <= k < out@.len() ==> (#[trigger] out@[k]).index < i,
                forall|h: Handle|
                    self.contents().contains_key(h) && (h.index as int) < i ==> out@.contains(h),
                forall|j: int, k: int| 0 <= j < k < out@.len() ==> out@[j].index < out@[k].index,
            decreases self.slots@.len() - i,
        {
            match &self.slots[i] {
                Slot::Full { generation, .. } => {
                    let h = Handle { index: i as u32, generation: *generation };
                    let ghost before = out@;
                    out.push(h);
                    proof {
                        assert(out@[out@.len() - 1] == h);
                        assert forall|g: Handle|
                            self.contents().contains_key(g) && (g.index as int) < i + 1 implies out@.contains(
                            g,
                        ) by {
                            if (g.index as int) < i {
                                assert(before.contains(g));
                                let k = choose|k: int| 0 <= k < before.len() && before[k] == g;
                                assert(out@[k] == g);
                            } else {
                                assert(g == h);
                            }
                        }
                    }
                },
                Slot::Empty { .. } => {},
            }
            i = i + 1;
        }
        out
    }
}

} // verus!

verus! {

/// `p` is a chain of live objects in `m`, each holding a handle to the next.
pub open spec fn chain_in<T: Trace>(m: Map<Handle, T>, p: Seq<Handle>) -> bool {
    &&& p.len() > 0
    &&& forall|k: int| 0 <= k < p.len() ==> m.contains_key(#[trigger] p[k])
    &&& forall|k: int| 0 <= k < p.len() - 1 ==> m[#[trigger] p[k]].edges().contains(p[k + 1])
}

/// `h` can be reached in `m` from one of `roots` by following handles.
pub open spec fn reachable_in<T: Trace>(m: Map<Handle, T>, roots: Seq<Handle>, h: Handle) -> bool {
    exists|p: Seq<Handle>| #[trigger] chain_in(m, p) && roots.contains(p[0]) && p.last() == h
}

/// A live root is reachable.
proof fn lemma_root_reachable<T: Trace>(m: Map<Handle, T>, roots: Seq<Handle>, h: Handle)
    requires
        m.contains_key(h),
        roots.contains(h),
    ensures
        reachable_in(m, roots, h),
{
    let p = seq![h];
    assert(chain_in(m, p));
}

/// A live handle held by a reachable object is reachable.
proof fn lemma_edge_reachable<T: Trace>(m: Map<Handle, T>, roots: Seq<Handle>, h: Handle, e: Handle)
    requires
        reachable_in(m, roots, h),
        m.contains_key(e),
        m[h].edges().contains(e),
    ensures
        reachable_in(m, roots, e),
{
    let p = choose|p: Seq<Handle>| #[trigger] chain_in(m, p) && roots.contains(p[0]) && p.last() == h;
    let q = p.push(e);
    assert forall|k: int| 0 <= k < q.len() implies m.contains_key(#[trigger] q[k]) by {
        if k < p.len() {
            assert(q[k] == p[k]);
        }
    }
    assert forall|k: int| 0 <= k < q.len() - 1 implies m[#[trigger] q[k]].edges().contains(q[k + 1]) by {
        if k < p.len() - 1 {
            assert(q[k] == p[k] && q[k + 1] == p[k + 1]);
        } else {
            assert(q[k] == h);
        }
    }
    assert(chain_in(m, q));
    assert(q[0] == p[0]);
}

/// A set of handles that holds every live root and is closed under live
/// edges holds everything reachable.
proof fn lemma_closed_holds_reachable<T: Trace>(
    m: Map<Handle, T>,
    roots: Seq<Handle>,
    marked: spec_fn(Handle) -> bool,
    h: Handle,
)
    requires
        forall|r: Handle| roots.contains(r) && m.contains_key(r) ==> marked(r),
        forall|a: Handle, e: Handle|
            marked(a) && m.contains_key(a) && m.contains_key(e) && #[trigger] m[a].edges().contains(e)
                ==> #[trigger] marked(e),
        reachable_in(m, roots, h),
    ensures
        marked(h),
{
    let p = choose|p: Seq<Handle>| #[trigger] chain_in(m, p) && roots.contains(p[0]) && p.last() == h;
    lemma_chain_marked(m, p, marked, p.len() - 1);
}

proof fn lemma_chain_marked<T: Trace>(m: Map<Handle, T>, p: Seq<Handle>, marked: spec_fn(Handle) -> bool, k: int)
    requires
        chain_in(m, p),
        0 <= k < p.len(),
        marked(p[0]),
        forall|a: Handle, e: Handle|
            marked(a) && m.contains_key(a) && m.contains_key(e) && #[trigger] m[a].edges().contains(e)
                ==> #[trigger] marked(e),
    ensures
        marked(p[k]),
    decreases k,
{
    if k > 0 {
        lemma_chain_marked(m, p, marked, k - 1);
        assert(m.contains_key(p[k - 1]));
        assert(m.contains_key(p[k]));
        assert(m[p[k - 1]].edges().contains(p[k]));
    }
}

/// Whether `h` is live in a slab.
spec fn live_in<T>(slots: Seq<Slot<T>>, h: Handle) -> bool {
    &&& (h.index as int) < slots.len()
    &&& slots[h.index as int] is Full
    &&& slots[h.index as int].gen() == h.generation
}

/// The handle of slot `i` in its current generation.
spec fn handle_of<T>(slots: Seq<Slot<T>>, i: int) -> Handle {
    Handle { index: i as u32, generation: slots[i].gen() }
}

/// How many marks are still down.
spec fn count_unmarked(mark: Seq<bool>) -> nat
    decreases mark.len(),
{
    if mark.len() == 0 {
        0
    } else {
        count_unmarked(mark.drop_last()) + if mark.last() {
            0nat
        } else {
            1nat
        }
    }
}

proof fn lemma_count_unmarked_set(mark: Seq<bool>, i: int)
    requires
        0 <= i < mark.len(),
        !mark[i],
    ensures
        count_unmarked(mark.update(i, true)) + 1 == count_unmarked(mark),
    decreases mark.len(),
{
    if i < mark.len() - 1 {
        lemma_count_unmarked_set(mark.drop_last(), i);
        assert(mark.update(i, true).drop_last() =~= mark.drop_last().update(i, true));
    } else {
        assert(mark.update(i, true).drop_last() =~= mark.drop_last());
    }
}

/// Mark the slot of a live handle, returning whether this was the first
/// time. A stale handle is ignored rather than marking whatever now
/// occupies its slot.
fn mark_slot<T>(slots: &Vec<Slot<T>>, mark: &mut Vec<bool>, h: Handle) -> (r: bool)
    requires
        old(mark)@.len() == slots@.len(),
    ensures
        final(mark)@.len() == old(mark)@.len(),
        r == (live_in(slots@, h) && !old(mark)@[h.index as int]),
        r ==> final(mark)@ == old(mark)@.update(h.index as int, true),
        !r ==> final(mark)@ == old(mark)@,
{
    let i = h.index as usize;
    if i >= slots.len() {
        return false;
    }
    match &slots[i] {
        Slot::Empty { .. } => {
            return false;
        },
        Slot::Full { generation, .. } => {
            if *generation != h.generation {
                return false;
            }
        },
    }
    if mark[i] {
        return false;
    }
    mark.set(i, true);
    true
}

} // verus!

verus! {

/// Some entry of `work` is for slot `j`.
spec fn pending(work: Seq<Handle>, j: int) -> bool {
    exists|k: int| 0 <= k < work.len() && (#[trigger] work[k]).index == j
}

/// Every live handle that the object in slot `j` holds is marked.
spec fn closed<T: Trace>(slots: Seq<Slot<T>>, mark: Seq<bool>, j: int) -> bool {
    forall|e: Handle|
        #![trigger slots[j]->value.edges().contains(e)]
        slots[j]->value.edges().contains(e) && live_in(slots, e) ==> mark[e.index as int]
}

/// Marks only go up, so a closed slot stays closed.
proof fn lemma_closed_mono<T: Trace>(slots: Seq<Slot<T>>, m1: Seq<bool>, m2: Seq<bool>, j: int)
    requires
        closed(slots, m1, j),
        m1.len() == m2.len(),
        forall|i: int| 0 <= i < m1.len() && #[trigger] m1[i] ==> m2[i],
        m1.len() == slots.len(),
    ensures
        closed(slots, m2, j),
{
    assert forall|e: Handle| slots[j]->value.edges().contains(e) && live_in(slots, e) implies m2[
        e.index as int] by {
        assert(m1[e.index as int]);
    }
}

/// The live handles of a slab and their objects.
spec fn contents_of<T>(slots: Seq<Slot<T>>) -> Map<Handle, T> {
    Map::new(|h: Handle| live_in(slots, h), |h: Handle| slots[h.index as int]->value)
}

/// Every mark is on a full slot whose handle is reachable.
spec fn marks_sound<T: Trace>(slots: Seq<Slot<T>>, roots: Seq<Handle>, mark: Seq<bool>) -> bool {
    &&& mark.len() == slots.len()
    &&& forall|j: int|
        0 <= j < slots.len() && #[trigger] mark[j] ==> slots[j] is Full && reachable_in(
            contents_of(slots),
            roots,
            handle_of(slots, j),
        )
}

/// The work list holds live, marked handles, one per slot.
spec fn work_sound<T>(slots: Seq<Slot<T>>, mark: Seq<bool>, work: Seq<Handle>) -> bool {
    &&& forall|k: int| 0 <= k < work.len() ==> live_in(slots, #[trigger] work[k]) && mark[work[k].index as int]
    &&& forall|a: int, b: int| 0 <= a < b < work.len() ==> (#[trigger] work[a]).index != (#[trigger] work[b]).index
}

/// Every marked slot that is not waiting in the work list, other than `x`,
/// is closed.
spec fn closed_except<T: Trace>(slots: Seq<Slot<T>>, mark: Seq<bool>, work: Seq<Handle>, x: int) -> bool {
    forall|j: int|
        0 <= j < slots.len() && #[trigger] mark[j] && !pending(work, j) && j != x ==> closed(slots, mark, j)
}

/// Every live root is marked.
spec fn roots_marked<T>(slots: Seq<Slot<T>>, roots: Seq<Handle>, mark: Seq<bool>, upto: int) -> bool {
    forall|k: int| 0 <= k < upto ==> live_in(slots, #[trigger] roots[k]) ==> mark[roots[k].index as int]
}

/// Marking a fresh slot and queueing its handle keeps the marking sound,
/// and keeps closed every slot that was closed.
proof fn lemma_mark_push<T: Trace>(
    slots: Seq<Slot<T>>,
    roots: Seq<Handle>,
    mark: Seq<bool>,
    work: Seq<Handle>,
    e: Handle,
    x: int,
)
    requires
        marks_sound(slots, roots, mark),
        work_sound(slots, mark, work),
        closed_except(slots, mark, work, x),
        live_in(slots, e),
        !mark[e.index as int],
        reachable_in(contents_of(slots), roots, e),
    ensures
        marks_sound(slots, roots, mark.update(e.index as int, true)),
        work_sound(slots, mark.update(e.index as int, true), work.push(e)),
        closed_except(slots, mark.update(e.index as int, true), work.push(e), x),
        forall|k: int| 0 <= k < roots.len() && roots_marked(slots, roots, mark, k) ==> roots_marked(
            slots,
            roots,
            mark.update(e.index as int, true),
            k,
        ),
        count_unmarked(mark.update(e.index as int, true)) + 1 == count_unmarked(mark),
{
    let i = e.index as int;
    let m2 = mark.update(i, true);
    let w2 = work.push(e);
    lemma_count_unmarked_set(mark, i);
    assert(handle_of(slots, i) == e);
    assert forall|k: int| 0 <= k < w2.len() implies live_in(slots, #[trigger] w2[k]) && m2[w2[k].index as int] by {
        if k < work.len() {
            assert(w2[k] == work[k]);
        }
    }
    assert forall|a: int, b: int| 0 <= a < b < w2.len() implies (#[trigger] w2[a]).index != (#[trigger] w2[b]).index by {
        if b == work.len() {
            assert(w2[a] == work[a]);
            assert(mark[work[a].index as int]);
        } else {
            assert(w2[a] == work[a] && w2[b] == work[b]);
        }
    }
    assert forall|j: int|
        0 <= j < slots.len() && #[trigger] m2[j] && !pending(w2, j) && j != x implies closed(slots, m2, j) by {
        assert(j != i) by {
            assert(w2[work.len() as int] == e);
        }
        assert(mark[j]);
        if pending(work, j) {
            let k = choose|k: int| 0 <= k < work.len() && (#[trigger] work[k]).index == j;
            assert(w2[k] == work[k]);
        }
        lemma_closed_mono(slots, mark, m2, j);
    }
    assert forall|k: int| 0 <= k < roots.len() && roots_marked(slots, roots, mark, k) implies roots_marked(
        slots,
        roots,
        m2,
        k,
    ) by {
        assert forall|t: int| 0 <= t < k implies live_in(slots, #[trigger] roots[t]) ==> m2[roots[t].index as int] by {
            if live_in(slots, roots[t]) {
                assert(mark[roots[t].index as int]);
            }
        }
    }
}

impl<T: Trace> Heap<T> {
    /// The contents are those of the slab.
    proof fn lemma_contents(&self)
        ensures
            self.contents() == contents_of(self.slots@),
    {
        assert(self.contents() =~= contents_of(self.slots@));
    }
}

/// Mark every live handle among `edges`, queueing the fresh ones; `h`, the
/// object they came from, is closed afterwards.
fn mark_edges<T: Trace>(
    slots: &Vec<Slot<T>>,
    mark: &mut Vec<bool>,
    work: &mut Vec<Handle>,
    edges: &Vec<Handle>,
    Ghost(roots): Ghost<Seq<Handle>>,
    Ghost(h): Ghost<Handle>,
)
    requires
        marks_sound(slots@, roots, old(mark)@),
        work_sound(slots@, old(mark)@, old(work)@),
        closed_except(slots@, old(mark)@, old(work)@, h.index as int),
        roots_marked(slots@, roots, old(mark)@, roots.len() as int),
        !pending(old(work)@, h.index as int),
        live_in(slots@, h),
        old(mark)@[h.index as int],
        edges@ == slots@[h.index as int]->value.edges(),
    ensures
        marks_sound(slots@, roots, final(mark)@),
        work_sound(slots@, final(mark)@, final(work)@),
        closed_except(slots@, final(mark)@, final(work)@, -1),
        roots_marked(slots@, roots, final(mark)@, roots.len() as int),
        final(work)@.len() >= old(work)@.len(),
        count_unmarked(final(mark)@) + (final(work)@.len() - old(work)@.len()) == count_unmarked(old(mark)@),
{
    let ghost s0 = slots@;
    let ghost w0 = work@;
    let ghost c0 = count_unmarked(mark@);
    let ghost m = contents_of(s0);
    let mut t: usize = 0;
    proof {
        assert(handle_of(s0, h.index as int) == h);
        assert(reachable_in(m, roots, h));
        assert(work@.subrange(0, w0.len() as int) =~= w0);
    }
    while t < edges.len()
        invariant
            s0 == slots@,
            m == contents_of(s0),
            live_in(s0, h),
            reachable_in(m, roots, h),
            mark@[h.index as int],
            edges@ == s0[h.index as int]->value.edges(),
            0 <= t <= edges@.len(),
            marks_sound(s0, roots, mark@),
            work_sound(s0, mark@, work@),
            closed_except(s0, mark@, work@, h.index as int),
            roots_marked(s0, roots, mark@, roots.len() as int),
            w0.len() <= work@.len(),
            work@.subrange(0, w0.len() as int) == w0,
            !pending(w0, h.index as int),
            forall|k: int| w0.len() <= k < work@.len() ==> (#[trigger] work@[k]).index != h.index,
            count_unmarked(mark@) + (work@.len() - w0.len()) == c0,
            forall|u: int| 0 <= u < t ==> live_in(s0, #[trigger] edges@[u]) ==> mark@[edges@[u].index as int],
        decreases edges@.len() - t,
    {
        let e = edges[t];
        let ghost before_mark = mark@;
        let ghost before_work = work@;
        if mark_slot(slots, mark, e) {
            proof {
                assert(m.contains_key(e));
                assert(m[h].edges()[t as int] == e);
                lemma_edge_reachable(m, roots, h, e);
                lemma_mark_push(s0, roots, before_mark, before_work, e, h.index as int);
            }
            work.push(e);
            proof {
                assert(work@.subrange(0, w0.len() as int) =~= before_work.subrange(0, w0.len() as int));
                assert(work@[work@.len() - 1] == e);
                assert(e.index != h.index);
            }
        }
        proof {
            assert forall|u: int| 0 <= u < t + 1 implies live_in(s0, #[trigger] edges@[u]) ==> mark@[
                edges@[u].index as int] by {
                if u < t && live_in(s0, edges@[u]) {
                    assert(before_mark[edges@[u].index as int]);
                }
            }
        }
        t = t + 1;
    }
    proof {
        assert(closed(s0, mark@, h.index as int)) by {
            assert forall|e: Handle|
                #![trigger s0[h.index as int]->value.edges().contains(e)]
                s0[h.index as int]->value.edges().contains(e) && live_in(s0, e) implies mark@[e.index as int] by {
                let u = choose|u: int| 0 <= u < edges@.len() && edges@[u] == e;
                assert(live_in(s0, edges@[u]));
            }
        }
        assert forall|j: int|
            0 <= j < s0.len() && #[trigger] mark@[j] && !pending(work@, j) && j != -1 implies closed(s0, mark@, j) by {
            if j != h.index {
                assert(!pending(work@, j));
            }
        }
    }
}

} // verus!

verus! {

/// Taking the last handle off the work list leaves it sound, and every
/// marked slot closed but the one just taken.
proof fn lemma_pop_step<T: Trace>(slots: Seq<Slot<T>>, mark: Seq<bool>, w: Seq<Handle>)
    requires
        w.len() > 0,
        work_sound(slots, mark, w),
        closed_except(slots, mark, w, -1),
    ensures
        ({
            let h = w.last();
            let rest = w.drop_last();
            &&& live_in(slots, h)
            &&& mark[h.index as int]
            &&& !pending(rest, h.index as int)
            &&& work_sound(slots, mark, rest)
            &&& closed_except(slots, mark, rest, h.index as int)
        }),
{
    let h = w.last();
    let rest = w.drop_last();
    assert(h == w[w.len() - 1]);
    if pending(rest, h.index as int) {
        let k = choose|k: int| 0 <= k < rest.len() && (#[trigger] rest[k]).index == h.index;
        assert(w[k] == rest[k]);
    }
    assert forall|k: int| 0 <= k < rest.len() implies live_in(slots, #[trigger] rest[k]) && mark[
        rest[k].index as int] by {
        assert(w[k] == rest[k]);
    }
    assert forall|a: int, b: int| 0 <= a < b < rest.len() implies (#[trigger] rest[a]).index
        != (#[trigger] rest[b]).index by {
        assert(w[a] == rest[a] && w[b] == rest[b]);
    }
    assert forall|j: int|
        0 <= j < slots.len() && #[trigger] mark[j] && !pending(rest, j) && j != h.index implies closed(
        slots,
        mark,
        j,
    ) by {
        if pending(w, j) {
            let k = choose|k: int| 0 <= k < w.len() && (#[trigger] w[k]).index == j;
            if k < w.len() - 1 {
                assert(rest[k] == w[k]);
            }
        }
    }
}

/// Once nothing is waiting, the marks are exactly the reachable slots.
proof fn lemma_marks_complete<T: Trace>(slots: Seq<Slot<T>>, roots: Seq<Handle>, mark: Seq<bool>)
    requires
        slots.len() <= u32::MAX + 1,
        marks_sound(slots, roots, mark),
        closed_except(slots, mark, Seq::empty(), -1),
        roots_marked(slots, roots, mark, roots.len() as int),
    ensures
        forall|i: int|
            0 <= i < slots.len() ==> (#[trigger] mark[i] <==> (slots[i] is Full && reachable_in(
                contents_of(slots),
                roots,
                handle_of(slots, i),
            ))),
{
    let m = contents_of(slots);
    let n = slots.len();
    let marked = |g: Handle| (g.index as int) < n && mark[g.index as int];
    assert forall|a: Handle, e: Handle|
        marked(a) && m.contains_key(a) && m.contains_key(e) && #[trigger] m[a].edges().contains(e)
            implies #[trigger] marked(e) by {
        assert(!pending(Seq::<Handle>::empty(), a.index as int));
        assert(closed(slots, mark, a.index as int));
        assert(slots[a.index as int]->value.edges().contains(e));
    }
    assert forall|r: Handle| roots.contains(r) && m.contains_key(r) implies marked(r) by {
        let k = choose|k: int| 0 <= k < roots.len() && roots[k] == r;
        assert(live_in(slots, roots[k]));
    }
    assert forall|i: int|
        0 <= i < n implies (#[trigger] mark[i] <==> (slots[i] is Full && reachable_in(
        m,
        roots,
        handle_of(slots, i),
    ))) by {
        if slots[i] is Full && reachable_in(m, roots, handle_of(slots, i)) {
            lemma_closed_holds_reachable(m, roots, marked, handle_of(slots, i));
            assert(handle_of(slots, i).index as int == i);
        }
    }
}

impl<T: Trace> Heap<T> {
    /// Mark every slot reachable from `roots`, and no other.
    ///
    /// Marking is iterative rather than recursive, so a deep structure
    /// cannot overflow the host stack, and cycles terminate because a marked
    /// slot is never queued twice.
    fn mark_from(&mut self, roots: &[Handle])
        requires
            old(self).wf(),
        ensures
            final(self).slots@ == old(self).slots@,
            final(self).free@ == old(self).free@,
            final(self).live == old(self).live,
            final(self).mark@.len() == old(self).slots@.len(),
            forall|i: int|
                0 <= i < old(self).slots@.len() ==> (#[trigger] final(self).mark@[i] <==> (old(self).slots@[i] is Full && reachable_in(
                    contents_of(old(self).slots@),
                    roots@,
                    handle_of(old(self).slots@, i),
                ))),
    {
        let ghost s0 = self.slots@;
        let ghost m = contents_of(s0);
        let n = self.slots.len();
        self.mark.clear();
        self.mark.resize(n, false);
        self.work.clear();
        proof {
            assert forall|j: int| 0 <= j < n implies !self.mark@[j] by {
                assert(cloned::<bool>(false, self.mark@[j]));
            }
            assert(self.work@ =~= Seq::<Handle>::empty());
        }
        let mut i: usize = 0;
        while i < roots.len()
            invariant
                self.slots@ == s0,
                self.free@ == old(self).free@,
                self.live == old(self).live,
                m == contents_of(s0),
                n == s0.len(),
                0 <= i <= roots@.len(),
                marks_sound(s0, roots@, self.mark@),
                work_sound(s0, self.mark@, self.work@),
                closed_except(s0, self.mark@, self.work@, -1),
                roots_marked(s0, roots@, self.mark@, i as int),
            decreases roots@.len() - i,
        {
            let r = roots[i];
            let ghost before_mark = self.mark@;
            let ghost before_work = self.work@;
            if mark_slot(&self.slots, &mut self.mark, r) {
                proof {
                    assert(m.contains_key(r));
                    assert(roots@[i as int] == r);
                    lemma_root_reachable(m, roots@, r);
                    lemma_mark_push(s0, roots@, before_mark, before_work, r, -1);
                }
                self.work.push(r);
            }
            proof {
                assert forall|k: int| 0 <= k < i + 1 implies live_in(s0, #[trigger] roots@[k]) ==> self.mark@[
                    roots@[k].index as int] by {
                    if k < i && live_in(s0, roots@[k]) {
                        assert(before_mark[roots@[k].index as int]);
                    }
                }
            }
            i = i + 1;
        }
        let mut edges: Vec<Handle> = Vec::new();
        while self.work.len() > 0
            invariant
                self.slots@ == s0,
                self.free@ == old(self).free@,
                self.live == old(self).live,
                m == contents_of(s0),
                n == s0.len(),
                marks_sound(s0, roots@, self.mark@),
                work_sound(s0, self.mark@, self.work@),
                closed_except(s0, self.mark@, self.work@, -1),
                roots_marked(s0, roots@, self.mark@, roots@.len() as int),
            decreases count_unmarked(self.mark@), self.work@.len(),
        {
            let ghost w = self.work@;
            proof {
                lemma_pop_step(s0, self.mark@, w);
            }
            let h = self.work.pop().unwrap();
            proof {
                assert(self.work@ =~= w.drop_last());
            }
            edges.clear();
            let hi = h.index as usize;
            match &self.slots[hi] {
                Slot::Full { value, .. } => {
                    value.trace(&mut edges);
                },
                Slot::Empty { .. } => {},
            }
            proof {
                assert(edges@ =~= s0[h.index as int]->value.edges());
            }
            mark_edges(&self.slots, &mut self.mark, &mut self.work, &edges, Ghost(roots@), Ghost(h));
        }
        proof {
            assert(self.work@ =~= Seq::<Handle>::empty());
            lemma_marks_complete(s0, roots@, self.mark@);
        }
    }
}

} // verus!

verus! {

/// The generation after `g`, wrapping around.
pub open spec fn next_generation(g: u32) -> u32 {
    if g == u32::MAX {
        0
    } else {
        (g + 1) as u32
    }
}

/// What sweeping does to slot `i`: a full slot that is not marked is
/// emptied into the next generation; every other slot is left alone.
spec fn swept_slot<T>(slots: Seq<Slot<T>>, mark: Seq<bool>, i: int) -> Slot<T> {
    if slots[i] is Full && !mark[i] {
        Slot::Empty { generation: next_generation(slots[i].gen()) }
    } else {
        slots[i]
    }
}

impl<T: Trace> Heap<T> {
    /// Empty every full slot that marking did not reach, returning how many.
    fn sweep(&mut self) -> (r: usize)
        requires
            old(self).wf(),
            old(self).mark@.len() == old(self).slots@.len(),
        ensures
            final(self).wf(),
            final(self).slots@.len() == old(self).slots@.len(),
            forall|i: int|
                0 <= i < old(self).slots@.len() ==> #[trigger] final(self).slots@[i] == swept_slot(
                    old(self).slots@,
                    old(self).mark@,
                    i,
                ),
            final(self).free@.subrange(0, old(self).free@.len() as int) == old(self).free@,
            final(self).free@.len() == old(self).free@.len() + r,
            forall|a: int, b: int|
                old(self).free@.len() <= a < b < final(self).free@.len() ==> final(self).free@[a]
                    < final(self).free@[b],
            forall|k: int|
                old(self).free@.len() <= k < final(self).free@.len() ==> (old(self).slots@[#[trigger] final(self).free@[k] as int] is Full
                    && !old(self).mark@[final(self).free@[k] as int]),
            forall|i: int|
                0 <= i < old(self).slots@.len() && old(self).slots@[i] is Full && !old(self).mark@[i]
                    ==> #[trigger] final(self).free@.subrange(old(self).free@.len() as int, final(self).free@.len() as int).contains(i as u32),
            r + final(self).live == old(self).live,
    {
        let ghost s0 = self.slots@;
        let ghost f0 = self.free@;
        let ghost mk = self.mark@;
        let n = self.slots.len();
        let mut freed: usize = 0;
        let mut index: usize = 0;
        proof {
            lemma_count_full_bound(s0);
            assert(self.free@.subrange(0, f0.len() as int) =~= f0);
        }
        while index < n
            invariant
                n == s0.len(),
                s0.len() <= u32::MAX + 1,
                mk == self.mark@,
                mk.len() == n,
                0 <= index <= n,
                self.slots@.len() == n,
                forall|i: int| 0 <= i < index ==> #[trigger] self.slots@[i] == swept_slot(s0, mk, i),
                forall|i: int| index <= i < n ==> #[trigger] self.slots@[i] == s0[i],
                self.free@.len() == f0.len() + freed,
                self.free@.subrange(0, f0.len() as int) == f0,
                forall|a: int, b: int| f0.len() <= a < b < self.free@.len() ==> self.free@[a] < self.free@[b],
                forall|k: int| f0.len() <= k < self.free@.len() ==> self.free@[k] < index,
                forall|k: int|
                    f0.len() <= k < self.free@.len() ==> (s0[#[trigger] self.free@[k] as int] is Full
                        && !mk[self.free@[k] as int]),
                forall|i: int|
                    0 <= i < index && s0[i] is Full && !mk[i] ==> #[trigger] self.free@.subrange(
                        f0.len() as int,
                        self.free@.len() as int,
                    ).contains(i as u32),
                // What `wf` asks of the free list, for the old entries.
                forall|j: int| 0 <= j < f0.len() ==> #[trigger] f0[j] < n,
                forall|j: int| 0 <= j < f0.len() ==> s0[#[trigger] f0[j] as int] is Empty,
                forall|j: int, k: int| 0 <= j < k < f0.len() ==> #[trigger] f0[j] != #[trigger] f0[k],
                forall|i: int| 0 <= i < n && #[trigger] s0[i] is Empty ==> f0.contains(i as u32),
                self.live + freed == old(self).live,
                self.live == count_full(self.slots@),
            decreases n - index,
        {
            if !self.mark[index] {
                let full = match &self.slots[index] {
                    Slot::Full { .. } => true,
                    Slot::Empty { .. } => false,
                };
                if full {
                    let next = self.slots[index].generation().wrapping_add(1);
                    let ghost before = self.slots@;
                    let ghost before_free = self.free@;
                    self.slots.set(index, Slot::Empty { generation: next });
                    self.free.push(index as u32);
                    proof {
                        lemma_count_full_update(before, index as int, Slot::Empty { generation: next });
                        assert(self.free@.subrange(0, f0.len() as int) =~= before_free.subrange(0, f0.len() as int));
                        let tail = self.free@.subrange(f0.len() as int, self.free@.len() as int);
                        let old_tail = before_free.subrange(f0.len() as int, before_free.len() as int);
                        assert(tail =~= old_tail.push(index as u32));
                        assert forall|i: int|
                            0 <= i < index + 1 && s0[i] is Full && !mk[i] implies #[trigger] tail.contains(
                            i as u32,
                        ) by {
                            if i < index {
                                assert(old_tail.contains(i as u32));
                                let k = choose|k: int| 0 <= k < old_tail.len() && old_tail[k] == i as u32;
                                assert(tail[k] == i as u32);
                            } else {
                                assert(tail[tail.len() - 1] == i as u32);
                            }
                        }
                    }
                    self.live = self.live - 1;
                    freed = freed + 1;
                }
            }
            index = index + 1;
        }
        proof {
            assert forall|j: int| 0 <= j < self.free@.len() implies #[trigger] self.free@[j] < self.slots@.len() by {
                if j < f0.len() {
                    assert(self.free@[j] == f0[j]);
                }
            }
            assert forall|j: int| 0 <= j < self.free@.len() implies self.slots@[#[trigger] self.free@[j] as int] is Empty by {
                if j < f0.len() {
                    assert(self.free@[j] == f0[j]);
                    assert(s0[f0[j] as int] is Empty);
                    assert(self.slots@[f0[j] as int] == swept_slot(s0, mk, f0[j] as int));
                } else {
                    assert(self.slots@[self.free@[j] as int] == swept_slot(s0, mk, self.free@[j] as int));
                }
            }
            assert forall|j: int, k: int| 0 <= j < k < self.free@.len() implies #[trigger] self.free@[j]
                != #[trigger] self.free@[k] by {
                if k < f0.len() {
                    assert(self.free@[j] == f0[j] && self.free@[k] == f0[k]);
                } else if j < f0.len() {
                    assert(self.free@[j] == f0[j]);
                    assert(s0[f0[j] as int] is Empty);
                }
            }
            assert forall|i: int| 0 <= i < self.slots@.len() && #[trigger] self.slots@[i] is Empty implies self.free@.contains(
                i as u32,
            ) by {
                assert(self.slots@[i] == swept_slot(s0, mk, i));
                if s0[i] is Empty {
                    assert(f0.contains(i as u32));
                    let j = choose|j: int| 0 <= j < f0.len() && f0[j] == i as u32;
                    assert(self.free@[j] == i as u32);
                } else {
                    let tail = self.free@.subrange(f0.len() as int, self.free@.len() as int);
                    assert(tail.contains(i as u32));
                    let k = choose|k: int| 0 <= k < tail.len() && tail[k] == i as u32;
                    assert(self.free@[f0.len() + k] == i as u32);
                }
            }
        }
        freed
    }
}

} // verus!

verus! {

/// A reachable handle is live.
proof fn lemma_reachable_live<T: Trace>(m: Map<Handle, T>, roots: Seq<Handle>, h: Handle)
    requires
        reachable_in(m, roots, h),
    ensures
        m.contains_key(h),
{
    let p = choose|p: Seq<Handle>| #[trigger] chain_in(m, p) && roots.contains(p[0]) && p.last() == h;
    assert(m.contains_key(p[p.len() - 1]));
}

impl<T: Trace> Heap<T> {
    /// The handle of slot `i` in the slot's current generation.
    pub closed spec fn handle_at(&self, i: int) -> Handle {
        handle_of(self.slots@, i)
    }

    /// Whether a collection from `roots` frees slot `i`: it holds a live
    /// object that the roots cannot reach.
    pub open spec fn collected(&self, roots: Seq<Handle>, i: int) -> bool {
        &&& self.contents().contains_key(self.handle_at(i))
        &&& !reachable_in(self.contents(), roots, self.handle_at(i))
    }

    /// Reclaim everything not reachable from `roots`, returning how many
    /// objects were freed. Stale roots, and stale handles inside objects, are
    /// ignored rather than keeping alive whatever now occupies their slots.
    pub fn collect(&mut self, roots: &[Handle]) -> (r: usize)
        requires
            old(self).wf(),
        ensures
            final(self).wf(),
            final(self).contents() == Map::new(
                |h: Handle| reachable_in(old(self).contents(), roots@, h),
                |h: Handle| old(self).contents()[h],
            ),
            r + final(self).live_count() == old(self).live_count(),
            final(self).slot_count() == old(self).slot_count(),
            forall|i: int|
                0 <= i < old(self).slot_count() ==> #[trigger] final(self).slot_generation(i) == if old(self).collected(roots@, i) {
                    next_generation(old(self).slot_generation(i))
                } else {
                    old(self).slot_generation(i)
                },
            final(self).free_list().subrange(0, old(self).free_list().len() as int) == old(self).free_list(),
            final(self).free_list().len() == old(self).free_list().len() + r,
            forall|a: int, b: int|
                old(self).free_list().len() <= a < b < final(self).free_list().len() ==> final(self).free_list()[a] < final(self).free_list()[b],
            forall|i: int|
                0 <= i < old(self).slot_count() ==> (old(self).collected(roots@, i) <==> final(self).free_list().subrange(
                    old(self).free_list().len() as int,
                    final(self).free_list().len() as int,
                ).contains(i as u32)),
    {
        let ghost s0 = self.slots@;
        proof {
            self.lemma_contents();
        }
        self.mark_from(roots);
        let ghost mk = self.mark@;
        let freed = self.sweep();
        proof {
            let m0 = contents_of(s0);
            let n = s0.len();
            assert forall|i: int| 0 <= i < n implies (old(self).collected(roots@, i) <==> (s0[i] is Full
                && !mk[i])) by {
                assert(old(self).handle_at(i) == handle_of(s0, i));
                assert(handle_of(s0, i).index as int == i);
            }
            assert forall|i: int| 0 <= i < n implies #[trigger] self.slot_generation(i) == if old(self).collected(roots@, i) {
                next_generation(old(self).slot_generation(i))
            } else {
                old(self).slot_generation(i)
            } by {
                assert(self.slots@[i] == swept_slot(s0, mk, i));
            }
            let tail = self.free@.subrange(old(self).free@.len() as int, self.free@.len() as int);
            assert forall|i: int| 0 <= i < n implies (old(self).collected(roots@, i) <==> tail.contains(
                i as u32,
            )) by {
                if tail.contains(i as u32) {
                    let k = choose|k: int| 0 <= k < tail.len() && tail[k] == i as u32;
                    assert(self.free@[old(self).free@.len() + k] == i as u32);
                }
            }
            let target = Map::new(
                |h: Handle| reachable_in(old(self).contents(), roots@, h),
                |h: Handle| old(self).contents()[h],
            );
            assert forall|h: Handle| self.contents().contains_key(h) <==> target.contains_key(h) by {
                let i = h.index as int;
                if i < n {
                    assert(self.slots@[i] == swept_slot(s0, mk, i));
                    if live_in(s0, h) {
                        assert(handle_of(s0, i) == h);
                    }
                }
                if reachable_in(m0, roots@, h) {
                    lemma_reachable_live(m0, roots@, h);
                }
            }
            assert forall|h: Handle| self.contents().contains_key(h) implies self.contents()[h] == target[h] by {
                let i = h.index as int;
                assert(self.slots@[i] == swept_slot(s0, mk, i));
            }
            assert(self.contents() =~= target);
        }
        freed
    }
}

} // verus!

verus! {

impl<T: Trace> Heap<T> {
    /// The object `h` names, to change in place.
    pub fn get_mut(&mut self, h: Handle) -> (r: Result<&mut T, DeadHandle>)
        requires
            old(self).wf(),
        ensures
            final(self).wf(),
            final(self).slot_count() == old(self).slot_count(),
            final(self).free_list() == old(self).free_list(),
            final(self).live_count() == old(self).live_count(),
            forall|i: int|
                0 <= i < old(self).slot_count() ==> final(self).slot_generation(i) == old(self).slot_generation(i),
            match r {
                Ok(v) => {
                    &&& old(self).contents().contains_key(h)
                    &&& *v == old(self).contents()[h]
                    &&& final(self).contents() == old(self).contents().insert(h, *final(v))
                },
                Err(e) => {
                    &&& !old(self).contents().contains_key(h)
                    &&& e == DeadHandle(h)
                    &&& final(self).contents() == old(self).contents()
                },
            },
    {
        if !self.is_live(h) {
            return Err(DeadHandle(h));
        }
        let i = h.index as usize;
        let ghost s0 = self.slots@;
        let slot = &mut self.slots[i];
        match slot {
            Slot::Full { value, .. } => {
                proof {
                    let s1 = s0.update(i as int, Slot::Full { generation: h.generation, value: *final(value) });
                    lemma_same_shape(s0, s1);
                }
                Ok(value)
            },
            Slot::Empty { .. } => Err(DeadHandle(h)),
        }
    }
}

/// Two slabs whose slots agree on being full or empty, and on generation.
spec fn same_shape<T>(a: Seq<Slot<T>>, b: Seq<Slot<T>>) -> bool {
    &&& a.len() == b.len()
    &&& forall|j: int| 0 <= j < a.len() ==> (a[j] is Full <==> b[j] is Full) && a[j].gen() == b[j].gen()
}

proof fn lemma_same_shape<T>(a: Seq<Slot<T>>, b: Seq<Slot<T>>)
    requires
        same_shape(a, b),
    ensures
        count_full(a) == count_full(b),
    decreases a.len(),
{
    if a.len() > 0 {
        lemma_same_shape(a.drop_last(), b.drop_last());
    }
}

} // verus!

verus! {

broadcast use vstd::std_specs::hash::axiom_random_state_builds_valid_hashers;

/// Interning table for values that are immutable and cannot cycle, so that
/// equal ones share a single object instead of each allocating.
///
/// Its contracts hold for key types that behave as hash-table keys should
/// (`obeys_key_model`): hashing is deterministic and equality is identity.
pub struct Interner<K: Eq + std::hash::Hash + Clone> {
    map: std::collections::HashMap<K, Handle>,
}

impl<K: Eq + std::hash::Hash + Clone> View for Interner<K> {
    type V = Map<K, Handle>;

    closed spec fn view(&self) -> Map<K, Handle> {
        self.map@
    }
}

/// `HashMap::retain`, keeping the entries whose handle is still live in
/// `heap`. Retaining visits every entry once and keeps exactly those the
/// test accepts; the table's view is that of a well-behaved key type.
#[verifier::external_body]
fn retain_live_entries<K: Eq + std::hash::Hash + Clone, T: Trace>(
    map: &mut std::collections::HashMap<K, Handle>,
    heap: &Heap<T>,
)
    ensures
        vstd::std_specs::hash::obeys_key_model::<K>() ==> final(map)@ == old(map)@.restrict(
            old(map)@.dom().filter(|k: K| heap.contents().contains_key(old(map)@[k])),
        ),
{
    map.retain(|_, h| heap.is_live(*h));
}

/// `HashMap::values`, collected: every handle in the table, once per entry,
/// in the table's own order.
#[verifier::external_body]
fn table_values<K: Eq + std::hash::Hash + Clone>(map: &std::collections::HashMap<K, Handle>) -> (r: Vec<
    Handle,
>)
    ensures
        vstd::std_specs::hash::obeys_key_model::<K>() ==> r@.to_set() == map@.values(),
        vstd::std_specs::hash::obeys_key_model::<K>() ==> r@.len() == map@.dom().len(),
{
    map.values().copied().collect()
}

impl<K: Eq + std::hash::Hash + Clone> Interner<K> {
    pub fn new() -> (r: Self)
        ensures
            r@ == Map::<K, Handle>::empty(),
    {
        Interner { map: std::collections::HashMap::new() }
    }

    /// The object interned for `key`, if any.
    pub fn get(&self, key: &K) -> (r: Option<Handle>)
        ensures
            vstd::std_specs::hash::obeys_key_model::<K>() ==> r == if self@.contains_key(*key) {
                Some(self@[*key])
            } else {
                None
            },
    {
        match self.map.get(key) {
            Some(h) => Some(*h),
            None => None,
        }
    }

    pub fn insert(&mut self, key: K, handle: Handle)
        ensures
            vstd::std_specs::hash::obeys_key_model::<K>() ==> final(self)@ == old(self)@.insert(key, handle),
    {
        self.map.insert(key, handle);
    }

    /// Drop entries whose objects are gone, after a collection.
    pub fn retain_live<T: Trace>(&mut self, heap: &Heap<T>)
        ensures
            vstd::std_specs::hash::obeys_key_model::<K>() ==> final(self)@ == old(self)@.restrict(
                old(self)@.dom().filter(|k: K| heap.contents().contains_key(old(self)@[k])),
            ),
    {
        retain_live_entries(&mut self.map, heap);
    }

    /// Every interned handle, one per entry.
    pub fn handles(&self) -> (r: Vec<Handle>)
        ensures
            vstd::std_specs::hash::obeys_key_model::<K>() ==> r@.to_set() == self@.values(),
            vstd::std_specs::hash::obeys_key_model::<K>() ==> r@.len() == self@.dom().len(),
    {
        table_values(&self.map)
    }
}

} // verus!

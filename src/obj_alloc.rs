use vstd::prelude::*;
use std::marker::PhantomData;
use crate::stack::{concat_seqs, last_nonempty, lemma_last_nonempty, LinkedRingBufferStack};
use crate::thread_local::ThreadLocal;
use crate::tl_buffer::{flatten_tl, lemma_flatten_tl_front, TLBufferNode, TLBufferedStack, MAX_BUFFERS};

verus! {

/// Objects in one region taken from the system allocator.
pub const REGION_OBJECTS: usize = 4096;

/// Size in bytes of one object of type `T`.
pub open spec fn obj_size<T>() -> int {
    vstd::layout::size_of::<T>() as int
}

/// Size in bytes of one region for objects of type `T`.
pub open spec fn bump_size<T>() -> int {
    REGION_OBJECTS * obj_size::<T>()
}

/// The object type has a size, and a region of it fits comfortably in the
/// address space.
pub open spec fn obj_size_ok<T>() -> bool {
    0 < obj_size::<T>() && bump_size::<T>() <= usize::MAX / 2
}

/// The slot capacity is usable.
pub open spec fn cap_ok(b: usize) -> bool {
    0 < b <= usize::MAX / 4
}

/// Index of the newest region tail in `g` with room for one object, or -1.
pub open spec fn last_roomy<T>(g: Seq<(usize, usize)>) -> int
    decreases g.len(),
{
    if g.len() == 0 {
        -1
    } else if g.last().0 + obj_size::<T>() <= g.last().1 {
        g.len() - 1
    } else {
        last_roomy::<T>(g.drop_last())
    }
}

/// The index `last_roomy` gives is in range and names a tail with room.
pub proof fn lemma_last_roomy<T>(g: Seq<(usize, usize)>)
    ensures
        -1 <= last_roomy::<T>(g) < g.len(),
        last_roomy::<T>(g) >= 0 ==> g[last_roomy::<T>(g)].0 + obj_size::<T>() <= g[last_roomy::<T>(
            g,
        )].1,
    decreases g.len(),
{
    if g.len() > 0 && !(g.last().0 + obj_size::<T>() <= g.last().1) {
        lemma_last_roomy::<T>(g.drop_last());
    }
}

/// One `allocate` step of a thread, over the thread's cache `l`, its region
/// `[b, m)`, the shared pool of donated objects `p`, the same pool as the
/// values of its nodes `n`, and the shared region tails `g` (`0` before the
/// step, `1` after), with result `r`.
pub open spec fn alloc_step<T>(
    l0: Seq<usize>,
    b0: int,
    m0: int,
    p0: Seq<usize>,
    n0: Seq<Seq<usize>>,
    g0: Seq<(usize, usize)>,
    l1: Seq<usize>,
    b1: int,
    m1: int,
    p1: Seq<usize>,
    n1: Seq<Seq<usize>>,
    g1: Seq<(usize, usize)>,
    r: Option<usize>,
) -> bool {
    let room = b0 + obj_size::<T>() <= m0;
    let k = last_nonempty(n0);
    let t = last_roomy::<T>(g0);
    if l0.len() > 0 {
        // the newest cached object
        &&& r == Some(l0.last())
        &&& l1 == l0.drop_last() && b1 == b0 && m1 == m0
        &&& p1 == p0 && n1 == n0 && g1 == g0
    } else if room {
        // the next slot of the current region
        &&& r == Some(b0 as usize)
        &&& l1 == l0 && b1 == b0 + obj_size::<T>() && m1 == m0
        &&& p1 == p0 && n1 == n0 && g1 == g0
    } else if k >= 0 {
        // the newest object of the newest non-empty donated node; the rest
        // of that node becomes the cache, the empty nodes above it are
        // dropped
        &&& r == Some(n0[k].last())
        &&& l1 == n0[k].drop_last()
        &&& n1 == n0.subrange(0, k)
        &&& p0 == p1 + l1.push(n0[k].last())
        &&& b1 == b0 && m1 == m0 && g1 == g0
    } else if t >= 0 {
        // the start of the newest returned region tail with room; the
        // tails above it, too small for an object, are dropped
        &&& r == Some(g0[t].0)
        &&& l1 == l0 && b1 == g0[t].0 + obj_size::<T>() && m1 == g0[t].1
        &&& p1 == p0 && n1 == Seq::<Seq<usize>>::empty() && g1 == g0.subrange(0, t)
    } else {
        // nothing usable left: a fresh region is needed
        &&& r is None
        &&& l1 == l0 && b1 == b0 && m1 == m0
        &&& p1 == p0 && n1 == Seq::<Seq<usize>>::empty() && g1 == Seq::<(usize, usize)>::empty()
    }
}

/// State shared by all threads: donated free objects, unused region tails,
/// and the base of every region taken from the system.
pub struct SharedAlloc<T, const B: usize> {
    free_obj: LinkedRingBufferStack<usize, B>,
    free_buffer: LinkedRingBufferStack<(usize, usize), B>,
    all_buffers: LinkedRingBufferStack<usize, B>,
    _marker: PhantomData<T>,
}

/// State of one thread: its current region `[buffer, buffer_limit)`, its
/// cache of free objects, its pin depth and the objects freed while pinned.
pub struct TLAllocInner<T, const B: usize> {
    buffer: usize,
    buffer_limit: usize,
    free_list: TLBufferedStack<usize, B>,
    guard_count: usize,
    defer_free: Vec<usize>,
    _marker: PhantomData<T>,
}

impl<T, const B: usize> SharedAlloc<T, B> {
    /// Donated free objects; the next to be handed out is the last.
    pub closed spec fn free_objs_view(&self) -> Seq<usize> {
        self.free_obj@
    }

    /// Donated free objects, node by node, bottom node first.
    pub closed spec fn free_obj_nodes(&self) -> Seq<Seq<usize>> {
        self.free_obj.node_views()
    }

    /// The pool is its nodes' values joined.
    pub proof fn lemma_pool_is_nodes(&self)
        ensures
            self.free_objs_view() == concat_seqs(self.free_obj_nodes()),
    {
        self.free_obj.lemma_view_is_nodes();
    }

    /// Unused region tails `(start, limit)`.
    pub closed spec fn free_regions(&self) -> Seq<(usize, usize)> {
        self.free_buffer@
    }

    /// Base of every region taken from the system, in order.
    pub closed spec fn all_regions(&self) -> Seq<usize> {
        self.all_buffers@
    }

    pub closed spec fn wf(&self) -> bool {
        &&& obj_size_ok::<T>()
        &&& cap_ok(B)
        &&& self.free_obj.wf()
        &&& self.free_buffer.wf()
        &&& self.all_buffers.wf()
        &&& forall|i: int|
            0 <= i < self.free_buffer@.len() ==> #[trigger] self.free_buffer@[i].0
                < self.free_buffer@[i].1
    }

    pub fn new() -> (r: Self)
        requires
            obj_size_ok::<T>(),
            cap_ok(B),
        ensures
            r.wf(),
            r.free_objs_view() == Seq::<usize>::empty(),
            r.free_obj_nodes() == Seq::<Seq<usize>>::empty(),
            r.free_regions() == Seq::<(usize, usize)>::empty(),
            r.all_regions() == Seq::<usize>::empty(),
    {
        SharedAlloc {
            free_obj: LinkedRingBufferStack::new(),
            free_buffer: LinkedRingBufferStack::new(),
            all_buffers: LinkedRingBufferStack::new(),
            _marker: PhantomData,
        }
    }

    /// Takes back the most recently returned region tail, if any.
    pub fn alloc_buffer(&mut self) -> (r: Option<(usize, usize)>)
        requires
            old(self).wf(),
        ensures
            final(self).wf(),
            final(self).free_objs_view() == old(self).free_objs_view(),
            final(self).free_obj_nodes() == old(self).free_obj_nodes(),
            final(self).all_regions() == old(self).all_regions(),
            old(self).free_regions().len() == 0 ==> r is None && final(self).free_regions() == old(self).free_regions(),
            old(self).free_regions().len() > 0 ==> r == Some(old(self).free_regions().last())
                && final(self).free_regions() == old(self).free_regions().drop_last(),
            r matches Some(p) ==> p.0 < p.1,
    {
        let ghost before = self.free_buffer@;
        let r = self.free_buffer.pop();
        proof {
            if before.len() > 0 {
                assert(before.last() == before[before.len() - 1]);
                assert forall|i: int| 0 <= i < self.free_buffer@.len() implies #[trigger] self.free_buffer@[i].0
                    < self.free_buffer@[i].1 by {
                    assert(self.free_buffer@[i] == before[i]);
                }
            }
        }
        r
    }

    /// Records a region of `bump_size` bytes just taken from the system at
    /// `base`, and returns its bounds.
    pub fn add_buffer(&mut self, base: usize) -> (r: (usize, usize))
        requires
            old(self).wf(),
            base + bump_size::<T>() <= usize::MAX,
        ensures
            final(self).wf(),
            r == (base, (base + bump_size::<T>()) as usize),
            final(self).all_regions() == old(self).all_regions().push(base),
            final(self).free_objs_view() == old(self).free_objs_view(),
            final(self).free_regions() == old(self).free_regions(),
    {
        self.all_buffers.push(base);
        let size = REGION_OBJECTS * core::mem::size_of::<T>();
        (base, base + size)
    }
}

impl<T, const B: usize> TLAllocInner<T, B> {
    /// Start of the unused part of the current region.
    pub closed spec fn spec_buffer(&self) -> usize {
        self.buffer
    }

    /// End of the current region.
    pub closed spec fn spec_limit(&self) -> usize {
        self.buffer_limit
    }

    /// The thread's cache of free objects; the next to be handed out is the
    /// last.
    pub closed spec fn free_list_view(&self) -> Seq<usize> {
        self.free_list@
    }

    /// Number of pins the thread holds.
    pub closed spec fn pins(&self) -> nat {
        self.guard_count as nat
    }

    /// Objects freed while pinned, in order.
    pub closed spec fn deferred(&self) -> Seq<usize> {
        self.defer_free@
    }

    pub closed spec fn wf(&self) -> bool {
        &&& obj_size_ok::<T>()
        &&& cap_ok(B)
        &&& self.free_list.wf()
        &&& self.buffer <= self.buffer_limit
    }

    /// The unused part of the region starts no later than it ends.
    pub proof fn lemma_region_ordered(&self)
        requires
            self.wf(),
        ensures
            self.spec_buffer() <= self.spec_limit(),
    {
    }

    /// A thread state whose current region is `[buffer, limit)`, with an
    /// empty cache and no pins.
    pub fn new(buffer: usize, limit: usize) -> (r: Self)
        requires
            obj_size_ok::<T>(),
            cap_ok(B),
            buffer <= limit,
        ensures
            r.wf(),
            r.spec_buffer() == buffer,
            r.spec_limit() == limit,
            r.free_list_view() == Seq::<usize>::empty(),
            r.pins() == 0,
            r.deferred() == Seq::<usize>::empty(),
    {
        TLAllocInner {
            free_list: TLBufferedStack::new(),
            buffer,
            buffer_limit: limit,
            guard_count: 0,
            defer_free: Vec::new(),
            _marker: PhantomData,
        }
    }

    /// Hands out one object address. In order of preference: the newest
    /// entry of the thread's cache; the next slot of the current region;
    /// the newest donated object (the rest of its node becomes the thread's
    /// cache); the start of the newest returned region tail. `None` when all
    /// of these are exhausted: a fresh region must then be taken from the
    /// system and given to `alloc_in_new_region`.
    pub fn allocate(&mut self, shared: &mut SharedAlloc<T, B>) -> (r: Option<usize>)
        requires
            old(self).wf(),
            old(shared).wf(),
        ensures
            final(self).wf(),
            final(shared).wf(),
            final(self).pins() == old(self).pins(),
            final(self).deferred() == old(self).deferred(),
            final(shared).all_regions() == old(shared).all_regions(),
            alloc_step::<T>(
                old(self).free_list_view(),
                old(self).spec_buffer() as int,
                old(self).spec_limit() as int,
                old(shared).free_objs_view(),
                old(shared).free_obj_nodes(),
                old(shared).free_regions(),
                final(self).free_list_view(),
                final(self).spec_buffer() as int,
                final(self).spec_limit() as int,
                final(shared).free_objs_view(),
                final(shared).free_obj_nodes(),
                final(shared).free_regions(),
                r,
            ),
    {
        let obj = core::mem::size_of::<T>();
        proof {
            self.free_list.lemma_view_len();
        }
        let ghost list0 = self.free_list@;
        match self.free_list.pop() {
            Some(addr) => {
                return Some(addr);
            },
            None => {},
        }
        assert(self.free_list@ == list0);
        if self.buffer_limit - self.buffer < obj {
            let ghost pool0 = shared.free_obj@;
            let ghost nv0 = shared.free_obj.node_views();
            proof {
                lemma_last_nonempty(nv0);
            }
            loop
                invariant
                    self.wf(),
                    shared.wf(),
                    shared.free_obj@ == pool0,
                    pool0 == old(shared).free_obj@,
                    nv0 == old(shared).free_obj_nodes(),
                    shared.free_obj.node_views().len() <= nv0.len(),
                    shared.free_obj.node_views() == nv0.subrange(
                        0,
                        shared.free_obj.node_views().len() as int,
                    ),
                    last_nonempty(shared.free_obj.node_views()) == last_nonempty(nv0),
                    self.free_list@.len() == 0,
                    self.free_list@ == old(self).free_list@,
                    self.buffer == old(self).buffer,
                    self.buffer_limit == old(self).buffer_limit,
                    self.guard_count == old(self).guard_count,
                    self.defer_free == old(self).defer_free,
                    self.buffer_limit - self.buffer < obj,
                    obj == obj_size::<T>(),
                    shared.free_buffer == old(shared).free_buffer,
                    shared.all_buffers == old(shared).all_buffers,
                    old(self).free_list_view().len() == 0,
                ensures
                    self.wf(),
                    shared.wf(),
                    last_nonempty(nv0) < 0,
                    nv0 == old(shared).free_obj_nodes(),
                    old(self).spec_buffer() + obj_size::<T>() > old(self).spec_limit(),
                    shared.free_obj.node_views() == Seq::<Seq<usize>>::empty(),
                    pool0 == old(shared).free_obj@,
                    shared.free_obj@ == pool0,
                    self.free_list@.len() == 0,
                    self.free_list@ == old(self).free_list@,
                    self.buffer == old(self).buffer,
                    self.buffer_limit == old(self).buffer_limit,
                    self.guard_count == old(self).guard_count,
                    self.defer_free == old(self).defer_free,
                    shared.free_buffer == old(shared).free_buffer,
                    shared.all_buffers == old(shared).all_buffers,
                decreases shared.free_obj.nodes().len(),
            {
                let ghost nv = shared.free_obj.node_views();
                proof {
                    lemma_last_nonempty(nv);
                }
                match shared.free_obj.pop_buffer() {
                    Some(node) => {
                        let mut node = node;
                        let ghost n0 = node@;
                        proof {
                            node.buffer.lemma_len_bound();
                            assert(nv.drop_last() =~= nv0.subrange(0, nv.len() - 1));
                        }
                        match node.buffer.pop_back() {
                            Some(ptr) => {
                                let tl = TLBufferNode::from_ring_buffer_node(&node);
                                self.free_list.install_node(tl);
                                proof {
                                    assert(nv.last() == nv[nv.len() - 1]);
                                    assert(last_nonempty(nv) == nv.len() - 1);
                                    assert(nv0[nv.len() - 1] == nv[nv.len() - 1]);
                                    assert(n0 == node@.push(ptr));
                                    assert(n0.last() == ptr);
                                    assert(n0.drop_last() =~= node@);
                                    assert(pool0 == shared.free_obj@ + n0);
                                    assert(pool0 =~= shared.free_obj@ + self.free_list@.push(ptr));
                                }
                                return Some(ptr);
                            },
                            None => {
                                assert(shared.free_obj@ =~= pool0);
                                assert(nv.last().len() == 0);
                            },
                        }
                    },
                    None => {
                        assert(nv =~= Seq::<Seq<usize>>::empty());
                        break ;
                    },
                }
            }
            let ghost g0 = shared.free_buffer@;
            loop
                invariant_except_break
                    last_roomy::<T>(shared.free_buffer@) == last_roomy::<T>(g0),
                    self.buffer == old(self).buffer,
                    self.buffer_limit == old(self).buffer_limit,
                invariant
                    self.wf(),
                    shared.wf(),
                    shared.free_obj@ == old(shared).free_obj@,
                    shared.free_obj.node_views() == Seq::<Seq<usize>>::empty(),
                    g0 == old(shared).free_buffer@,
                    shared.free_buffer@.len() <= g0.len(),
                    last_nonempty(old(shared).free_obj_nodes()) < 0,
                    old(self).free_list_view().len() == 0,
                    old(self).spec_buffer() + obj_size::<T>() > old(self).spec_limit(),
                    shared.free_buffer@ == g0.subrange(0, shared.free_buffer@.len() as int),
                    self.free_list@ == old(self).free_list@,
                    self.guard_count == old(self).guard_count,
                    self.defer_free == old(self).defer_free,
                    obj == obj_size::<T>(),
                    shared.all_buffers@ == old(shared).all_buffers@,
                ensures
                    self.wf(),
                    shared.wf(),
                    shared.free_obj@ == old(shared).free_obj@,
                    shared.free_obj.node_views() == Seq::<Seq<usize>>::empty(),
                    last_roomy::<T>(g0) >= 0,
                    shared.free_buffer@ == g0.subrange(0, last_roomy::<T>(g0)),
                    self.buffer == g0[last_roomy::<T>(g0)].0,
                    self.buffer_limit == g0[last_roomy::<T>(g0)].1,
                    self.buffer + obj <= self.buffer_limit,
                    self.free_list@ == old(self).free_list@,
                    self.guard_count == old(self).guard_count,
                    self.defer_free == old(self).defer_free,
                    shared.all_buffers@ == old(shared).all_buffers@,
                decreases shared.free_buffer@.len(),
            {
                let ghost g = shared.free_buffer@;
                match shared.alloc_buffer() {
                    Some(region) => {
                        proof {
                            assert(g.drop_last() =~= g0.subrange(0, g.len() - 1));
                            assert(g.last() == g0[g.len() - 1]);
                        }
                        if region.1 - region.0 >= obj {
                            self.buffer = region.0;
                            self.buffer_limit = region.1;
                            assert(last_roomy::<T>(g) == g.len() - 1);
                            break ;
                        }
                    },
                    None => {
                        assert(g =~= Seq::<(usize, usize)>::empty());
                        return None;
                    },
                }
            }
        }
        let addr = self.buffer;
        self.buffer = self.buffer + obj;
        Some(addr)
    }

    /// Abandons the current region for a fresh one of `bump_size` bytes at
    /// `base`, just taken from the system; records it and hands out its
    /// first object.
    pub fn alloc_in_new_region(&mut self, shared: &mut SharedAlloc<T, B>, base: usize) -> (r: usize)
        requires
            old(self).wf(),
            old(shared).wf(),
            base + bump_size::<T>() <= usize::MAX,
        ensures
            final(self).wf(),
            final(shared).wf(),
            r == base,
            final(self).spec_buffer() == base + obj_size::<T>(),
            final(self).spec_limit() == base + bump_size::<T>(),
            final(self).free_list_view() == old(self).free_list_view(),
            final(self).pins() == old(self).pins(),
            final(self).deferred() == old(self).deferred(),
            final(shared).all_regions() == old(shared).all_regions().push(base),
            final(shared).free_objs_view() == old(shared).free_objs_view(),
            final(shared).free_regions() == old(shared).free_regions(),
    {
        let (start, limit) = shared.add_buffer(base);
        let obj = core::mem::size_of::<T>();
        self.buffer = start + obj;
        self.buffer_limit = limit;
        start
    }
}

impl<T, const B: usize> TLAllocInner<T, B> {
    /// Objects the thread and the shared pool hold for reuse: the donated
    /// ones, then the thread's cache.
    pub open spec fn pool(&self, shared: &SharedAlloc<T, B>) -> Seq<usize> {
        shared.free_objs_view() + self.free_list_view()
    }

    /// Puts `addr` into the thread's cache. When the cache is at its
    /// capacity of `MAX_BUFFERS * B` objects, its oldest full node of `B`
    /// objects is donated to the shared pool.
    pub fn free(&mut self, shared: &mut SharedAlloc<T, B>, addr: usize)
        requires
            old(self).wf(),
            old(shared).wf(),
        ensures
            final(self).wf(),
            final(shared).wf(),
            final(self).pool(&*final(shared)) == old(self).pool(&*old(shared)).push(addr),
            old(self).free_list_view().len() <= MAX_BUFFERS * B,
            final(self).free_list_view().len() > 0,
            final(self).free_list_view().last() == addr,
            old(self).free_list_view().len() < MAX_BUFFERS * B ==> {
                &&& final(self).free_list_view() == old(self).free_list_view().push(addr)
                &&& final(shared).free_objs_view() == old(shared).free_objs_view()
            },
            old(self).free_list_view().len() == MAX_BUFFERS * B ==> {
                &&& final(self).free_list_view() == old(self).free_list_view().subrange(
                    B as int,
                    MAX_BUFFERS * B,
                ).push(addr)
                &&& final(shared).free_objs_view() == old(shared).free_objs_view() + old(self).free_list_view().subrange(0, B as int)
            },
            final(self).spec_buffer() == old(self).spec_buffer(),
            final(self).spec_limit() == old(self).spec_limit(),
            final(self).pins() == old(self).pins(),
            final(self).deferred() == old(self).deferred(),
            final(shared).free_regions() == old(shared).free_regions(),
            final(shared).all_regions() == old(shared).all_regions(),
    {
        proof {
            self.free_list.lemma_full();
        }
        let ghost list0 = self.free_list@;
        let ghost pool0 = shared.free_obj@;
        match self.free_list.push(addr) {
            Some(overflow) => {
                let ghost ov = overflow@;
                let node = overflow.into_ring_buffer_node();
                shared.free_obj.attach_buffer(node);
                proof {
                    let whole = list0.push(addr);
                    assert(ov + self.free_list@ == whole);
                    assert(list0.len() == MAX_BUFFERS * B);
                    assert(ov =~= (ov + self.free_list@).subrange(0, B as int));
                    assert(self.free_list@ =~= (ov + self.free_list@).subrange(
                        B as int,
                        whole.len() as int,
                    ));
                    assert(ov =~= list0.subrange(0, B as int));
                    assert(self.free_list@ =~= list0.subrange(B as int, MAX_BUFFERS * B).push(
                        addr,
                    ));
                    assert(shared.free_obj@ + self.free_list@ =~= pool0 + list0.push(addr));
                }
            },
            None => {
                assert(shared.free_obj@ + self.free_list@ =~= pool0 + list0.push(addr));
            },
        }
    }

    /// Gives up everything the thread holds: the unused tail of its region,
    /// if it has room for an object, goes to the shared region tails, and
    /// its whole cache, oldest first, to the shared pool.
    pub fn return_resources(&mut self, shared: &mut SharedAlloc<T, B>)
        requires
            old(self).wf(),
            old(shared).wf(),
        ensures
            final(self).wf(),
            final(shared).wf(),
            final(self).free_list_view() == Seq::<usize>::empty(),
            final(shared).free_objs_view() == old(shared).free_objs_view() + old(self).free_list_view(),
            old(self).spec_buffer() != old(self).spec_limit() ==> final(shared).free_regions() == old(
                shared,
            ).free_regions().push((old(self).spec_buffer(), old(self).spec_limit())),
            old(self).spec_buffer() == old(self).spec_limit() ==> final(shared).free_regions() == old(
                shared,
            ).free_regions(),
            final(self).spec_buffer() == old(self).spec_limit(),
            final(self).spec_limit() == old(self).spec_limit(),
            final(self).pins() == old(self).pins(),
            final(self).deferred() == old(self).deferred(),
            final(shared).all_regions() == old(shared).all_regions(),
    {
        if self.buffer != self.buffer_limit {
            let ghost before = shared.free_buffer@;
            shared.free_buffer.push((self.buffer, self.buffer_limit));
            proof {
                assert forall|i: int| 0 <= i < shared.free_buffer@.len() implies #[trigger] shared.free_buffer@[i].0
                    < shared.free_buffer@[i].1 by {
                    if i < before.len() {
                        assert(shared.free_buffer@[i] == before[i]);
                    }
                }
            }
        }
        self.buffer = self.buffer_limit;
        let ghost pool0 = shared.free_obj@;
        let mut nodes = self.free_list.take_nodes();
        while nodes.len() > 0
            invariant
                shared.wf(),
                shared.free_obj@ + flatten_tl(nodes@) == old(shared).free_obj@ + old(self).free_list_view(),
                forall|i: int| 0 <= i < nodes@.len() ==> (#[trigger] nodes@[i]).wf(),
                shared.free_buffer@ == if old(self).buffer != old(self).buffer_limit {
                    old(shared).free_buffer@.push((old(self).buffer, old(self).buffer_limit))
                } else {
                    old(shared).free_buffer@
                },
                shared.all_buffers == old(shared).all_buffers,
            decreases nodes@.len(),
        {
            let ghost ns = nodes@;
            proof {
                lemma_flatten_tl_front(ns);
            }
            let node = nodes.remove(0);
            proof {
                assert(ns.subrange(1, ns.len() as int) =~= nodes@);
                assert(ns[0] == node);
                assert forall|i: int| 0 <= i < nodes@.len() implies (#[trigger] nodes@[i]).wf() by {
                    assert(nodes@[i] == ns[i + 1]);
                }
            }
            let ghost nv = node@;
            shared.free_obj.attach_buffer(node.into_ring_buffer_node());
            proof {
                assert(shared.free_obj@ + flatten_tl(nodes@) =~= old(shared).free_obj@ + old(self).free_list_view());
            }
        }
        proof {
            assert(flatten_tl(nodes@) =~= Seq::<usize>::empty());
            assert(shared.free_obj@ =~= old(shared).free_obj@ + old(self).free_list_view());
        }
    }

    /// Enters a pinned section: frees are deferred until the last pin ends.
    pub fn pin(&mut self)
        requires
            old(self).wf(),
            old(self).pins() < usize::MAX,
        ensures
            final(self).wf(),
            final(self).pins() == old(self).pins() + 1,
            final(self).free_list_view() == old(self).free_list_view(),
            final(self).spec_buffer() == old(self).spec_buffer(),
            final(self).spec_limit() == old(self).spec_limit(),
            final(self).deferred() == old(self).deferred(),
    {
        self.guard_count = self.guard_count + 1;
    }

    /// Records `ptr` to be freed when the last pin ends.
    pub fn defer(&mut self, ptr: usize)
        requires
            old(self).wf(),
        ensures
            final(self).wf(),
            final(self).deferred() == old(self).deferred().push(ptr),
            final(self).pins() == old(self).pins(),
            final(self).free_list_view() == old(self).free_list_view(),
            final(self).spec_buffer() == old(self).spec_buffer(),
            final(self).spec_limit() == old(self).spec_limit(),
    {
        self.defer_free.push(ptr);
    }

    /// Leaves a pinned section. When it was the last pin, every deferred
    /// object is freed, in the order it was deferred.
    pub fn unpin(&mut self, shared: &mut SharedAlloc<T, B>)
        requires
            old(self).wf(),
            old(shared).wf(),
            old(self).pins() > 0,
        ensures
            final(self).wf(),
            final(shared).wf(),
            final(self).pins() == old(self).pins() - 1,
            final(self).pins() > 0 ==> {
                &&& final(self).deferred() == old(self).deferred()
                &&& final(self).free_list_view() == old(self).free_list_view()
                &&& final(shared).free_objs_view() == old(shared).free_objs_view()
            },
            final(self).pins() == 0 ==> {
                &&& final(self).deferred() == Seq::<usize>::empty()
                &&& final(self).pool(&*final(shared)) == old(self).pool(&*old(shared)) + old(self).deferred()
            },
            final(self).pins() == 0 && old(self).free_list_view().len() + old(self).deferred().len()
                <= MAX_BUFFERS * B ==> {
                &&& final(self).free_list_view() == old(self).free_list_view() + old(self).deferred()
                &&& final(shared).free_objs_view() == old(shared).free_objs_view()
            },
            final(self).spec_buffer() == old(self).spec_buffer(),
            final(self).spec_limit() == old(self).spec_limit(),
            final(shared).free_regions() == old(shared).free_regions(),
            final(shared).all_regions() == old(shared).all_regions(),
    {
        self.guard_count = self.guard_count - 1;
        if self.guard_count == 0 {
            let n = self.defer_free.len();
            let mut i: usize = 0;
            while i < n
                invariant
                    self.wf(),
                    shared.wf(),
                    n == self.defer_free@.len(),
                    i <= n,
                    self.guard_count == 0,
                    self.defer_free@ == old(self).defer_free@,
                    self.pool(&*shared) == old(self).pool(&*old(shared)) + self.defer_free@.subrange(
                        0,
                        i as int,
                    ),
                    old(self).free_list_view().len() + n <= MAX_BUFFERS * B ==> {
                        &&& self.free_list@ == old(self).free_list@ + self.defer_free@.subrange(
                            0,
                            i as int,
                        )
                        &&& shared.free_obj@ == old(shared).free_obj@
                    },
                    self.buffer == old(self).buffer,
                    self.buffer_limit == old(self).buffer_limit,
                    shared.free_buffer@ == old(shared).free_buffer@,
                    shared.all_buffers@ == old(shared).all_buffers@,
                decreases n - i,
            {
                let p = self.defer_free[i];
                let ghost d = self.defer_free@;
                let ghost l = self.free_list@;
                self.free(shared, p);
                i = i + 1;
                assert(d.subrange(0, i as int) =~= d.subrange(0, i - 1).push(p));
                assert(old(self).free_list_view().len() + n <= MAX_BUFFERS * B ==> l.len() < MAX_BUFFERS * B);
                assert(old(self).free_list_view().len() + n <= MAX_BUFFERS * B ==> self.free_list@ =~= old(
                    self,
                ).free_list@ + d.subrange(0, i as int));
            }
            self.defer_free.clear();
            assert(old(self).defer_free@.subrange(0, n as int) =~= old(self).defer_free@);
        }
    }
}

/// A thread's allocator state as the registry of threads holds it.
pub struct TLAlloc<T, const B: usize> {
    inner: TLAllocInner<T, B>,
}

impl<T, const B: usize> TLAlloc<T, B> {
    pub closed spec fn spec_inner(&self) -> TLAllocInner<T, B> {
        self.inner
    }

    /// A thread state whose current region is `[buffer, limit)`.
    pub fn new(buffer: usize, limit: usize) -> (r: Self)
        requires
            obj_size_ok::<T>(),
            cap_ok(B),
            buffer <= limit,
        ensures
            r.spec_inner().wf(),
            r.spec_inner().spec_buffer() == buffer,
            r.spec_inner().spec_limit() == limit,
            r.spec_inner().free_list_view() == Seq::<usize>::empty(),
            r.spec_inner().pins() == 0,
            r.spec_inner().deferred() == Seq::<usize>::empty(),
    {
        TLAlloc { inner: TLAllocInner::new(buffer, limit) }
    }
}

/// Object allocator for values of type `T`: shared pools plus one state
/// per thread, found by thread id.
pub struct Allocator<T, const B: usize> {
    shared: SharedAlloc<T, B>,
    thread: ThreadLocal<TLAlloc<T, B>>,
}

/// A pin held by thread `tid`; frees it defers happen when the thread's
/// last pin is released.
pub struct AllocGuard<T, const B: usize> {
    tid: u64,
    _marker: PhantomData<T>,
}

impl<T, const B: usize> AllocGuard<T, B> {
    pub closed spec fn spec_tid(&self) -> u64 {
        self.tid
    }

    /// The pinned thread.
    pub fn tid(&self) -> (r: u64)
        ensures
            r == self.spec_tid(),
    {
        self.tid
    }
}

impl<T, const B: usize> Allocator<T, B> {
    pub closed spec fn threads(&self) -> Map<u64, TLAlloc<T, B>> {
        self.thread@
    }

    /// Thread `tid` has a state.
    pub open spec fn has_thread(&self, tid: u64) -> bool {
        self.threads().contains_key(tid)
    }

    /// Cache of thread `tid` (empty before its first use).
    pub open spec fn local_list(&self, tid: u64) -> Seq<usize> {
        if self.has_thread(tid) {
            self.threads()[tid].spec_inner().free_list_view()
        } else {
            Seq::empty()
        }
    }

    /// Start of the unused part of thread `tid`'s region (0 before its
    /// first use).
    pub open spec fn local_buffer(&self, tid: u64) -> usize {
        if self.has_thread(tid) {
            self.threads()[tid].spec_inner().spec_buffer()
        } else {
            0
        }
    }

    /// End of thread `tid`'s region (0 before its first use).
    pub open spec fn local_limit(&self, tid: u64) -> usize {
        if self.has_thread(tid) {
            self.threads()[tid].spec_inner().spec_limit()
        } else {
            0
        }
    }

    /// Pins thread `tid` holds.
    pub open spec fn local_pins(&self, tid: u64) -> nat {
        if self.has_thread(tid) {
            self.threads()[tid].spec_inner().pins()
        } else {
            0
        }
    }

    /// Frees thread `tid` deferred.
    pub open spec fn local_deferred(&self, tid: u64) -> Seq<usize> {
        if self.has_thread(tid) {
            self.threads()[tid].spec_inner().deferred()
        } else {
            Seq::empty()
        }
    }

    pub closed spec fn free_objs(&self) -> Seq<usize> {
        self.shared.free_objs_view()
    }

    /// Donated free objects, node by node, bottom node first.
    pub closed spec fn free_obj_nodes(&self) -> Seq<Seq<usize>> {
        self.shared.free_obj_nodes()
    }

    pub closed spec fn free_regions(&self) -> Seq<(usize, usize)> {
        self.shared.free_regions()
    }

    pub closed spec fn all_regions(&self) -> Seq<usize> {
        self.shared.all_regions()
    }

    pub closed spec fn wf(&self) -> bool {
        &&& self.shared.wf()
        &&& self.thread.wf()
        &&& forall|t: u64| #[trigger] self.thread@.contains_key(t) ==> self.thread@[t].inner.wf()
    }

    /// Every thread's region is ordered: its unused part starts no later
    /// than it ends.
    pub proof fn lemma_regions_ordered(&self)
        requires
            self.wf(),
        ensures
            forall|t: u64| #[trigger] self.local_buffer(t) <= self.local_limit(t),
    {
        assert forall|t: u64| #[trigger] self.local_buffer(t) <= self.local_limit(t) by {
            if self.has_thread(t) {
                assert(self.thread@.contains_key(t));
            }
        }
    }

    /// The states of all threads but `tid`, and the shared region records,
    /// are the same in `self` and `other`.
    pub open spec fn same_except(&self, other: &Self, tid: u64) -> bool {
        &&& self.threads().remove(tid) == other.threads().remove(tid)
        &&& self.all_regions() == other.all_regions()
    }

    /// An allocator with no thread state and empty pools.
    pub fn new() -> (r: Self)
        requires
            obj_size_ok::<T>(),
            cap_ok(B),
        ensures
            r.wf(),
            r.threads() == Map::<u64, TLAlloc<T, B>>::empty(),
            r.free_objs() == Seq::<usize>::empty(),
            r.free_regions() == Seq::<(usize, usize)>::empty(),
            r.all_regions() == Seq::<usize>::empty(),
    {
        Allocator { shared: SharedAlloc::new(), thread: ThreadLocal::new() }
    }

    /// Takes thread `tid`'s state out of the registry, or makes a fresh one.
    fn tl_alloc(&mut self, tid: u64) -> (r: TLAlloc<T, B>)
        requires
            old(self).wf(),
        ensures
            final(self).shared == old(self).shared,
            final(self).thread.wf(),
            final(self).threads() == old(self).threads().remove(tid),
            forall|t: u64| #[trigger] final(self).thread@.contains_key(t) ==> final(self).thread@[t].inner.wf(),
            r.inner.wf(),
            r.inner.free_list_view() == old(self).local_list(tid),
            r.inner.spec_buffer() == old(self).local_buffer(tid),
            r.inner.spec_limit() == old(self).local_limit(tid),
            r.inner.pins() == old(self).local_pins(tid),
            r.inner.deferred() == old(self).local_deferred(tid),
    {
        match self.thread.take(tid) {
            Some(t) => t,
            None => TLAlloc::new(0, 0),
        }
    }

    /// Hands out one object address for thread `tid`, as `alloc_step`
    /// describes; `None` means a fresh region must be taken from the system
    /// and given to `alloc_in_new_region`.
    pub fn allocate(&mut self, tid: u64) -> (r: Option<usize>)
        requires
            old(self).wf(),
        ensures
            final(self).wf(),
            final(self).has_thread(tid),
            final(self).same_except(&*old(self), tid),
            alloc_step::<T>(
                old(self).local_list(tid),
                old(self).local_buffer(tid) as int,
                old(self).local_limit(tid) as int,
                old(self).free_objs(),
                old(self).free_obj_nodes(),
                old(self).free_regions(),
                final(self).local_list(tid),
                final(self).local_buffer(tid) as int,
                final(self).local_limit(tid) as int,
                final(self).free_objs(),
                final(self).free_obj_nodes(),
                final(self).free_regions(),
                r,
            ),
            final(self).local_pins(tid) == old(self).local_pins(tid),
            final(self).local_deferred(tid) == old(self).local_deferred(tid),
    {
        let mut t = self.tl_alloc(tid);
        let r = t.inner.allocate(&mut self.shared);
        self.thread.set(tid, t);
        assert(self.threads().remove(tid) =~= old(self).threads().remove(tid));
        r
    }

    /// Gives thread `tid` the fresh region of `bump_size` bytes at `base`,
    /// just taken from the system, and hands out its first object.
    pub fn alloc_in_new_region(&mut self, tid: u64, base: usize) -> (r: usize)
        requires
            old(self).wf(),
            base + bump_size::<T>() <= usize::MAX,
        ensures
            final(self).wf(),
            final(self).has_thread(tid),
            final(self).threads().remove(tid) == old(self).threads().remove(tid),
            r == base,
            final(self).all_regions() == old(self).all_regions().push(base),
            final(self).local_buffer(tid) == base + obj_size::<T>(),
            final(self).local_limit(tid) == base + bump_size::<T>(),
            final(self).local_list(tid) == old(self).local_list(tid),
            final(self).local_pins(tid) == old(self).local_pins(tid),
            final(self).local_deferred(tid) == old(self).local_deferred(tid),
            final(self).free_objs() == old(self).free_objs(),
            final(self).free_regions() == old(self).free_regions(),
    {
        let mut t = self.tl_alloc(tid);
        let r = t.inner.alloc_in_new_region(&mut self.shared, base);
        self.thread.set(tid, t);
        assert(self.threads().remove(tid) =~= old(self).threads().remove(tid));
        r
    }

    /// Returns `addr` to thread `tid`'s cache, donating a full node to the
    /// shared pool when the cache is at capacity. `addr` must be an object
    /// this allocator handed out and that was not freed since: freeing any
    /// other address, or freeing one twice, lets the allocator hand the same
    /// address out twice (see `lemma_free_disjoint`, which asks for exactly
    /// this).
    pub fn free(&mut self, tid: u64, addr: usize)
        requires
            old(self).wf(),
        ensures
            final(self).wf(),
            final(self).has_thread(tid),
            final(self).same_except(&*old(self), tid),
            final(self).free_objs() + final(self).local_list(tid) == old(self).free_objs() + old(self).local_list(tid).push(addr),
            old(self).local_list(tid).len() <= MAX_BUFFERS * B,
            final(self).local_list(tid).len() > 0,
            final(self).local_list(tid).last() == addr,
            old(self).local_list(tid).len() < MAX_BUFFERS * B ==> {
                &&& final(self).local_list(tid) == old(self).local_list(tid).push(addr)
                &&& final(self).free_objs() == old(self).free_objs()
            },
            old(self).local_list(tid).len() == MAX_BUFFERS * B ==> {
                &&& final(self).local_list(tid) == old(self).local_list(tid).subrange(
                    B as int,
                    MAX_BUFFERS * B,
                ).push(addr)
                &&& final(self).free_objs() == old(self).free_objs() + old(self).local_list(
                    tid,
                ).subrange(0, B as int)
            },
            final(self).local_buffer(tid) == old(self).local_buffer(tid),
            final(self).local_limit(tid) == old(self).local_limit(tid),
            final(self).local_pins(tid) == old(self).local_pins(tid),
            final(self).local_deferred(tid) == old(self).local_deferred(tid),
            final(self).free_regions() == old(self).free_regions(),
    {
        let mut t = self.tl_alloc(tid);
        t.inner.free(&mut self.shared, addr);
        self.thread.set(tid, t);
        assert(self.threads().remove(tid) =~= old(self).threads().remove(tid));
    }

    /// Number of pins thread `tid` holds.
    pub fn pin_depth(&self, tid: u64) -> (r: usize)
        requires
            self.wf(),
        ensures
            r == self.local_pins(tid),
    {
        match self.thread.get(tid) {
            Some(t) => t.inner.guard_count,
            None => 0,
        }
    }

    /// Pins thread `tid`.
    pub fn pin(&mut self, tid: u64) -> (r: AllocGuard<T, B>)
        requires
            old(self).wf(),
            old(self).local_pins(tid) < usize::MAX,
        ensures
            final(self).wf(),
            final(self).has_thread(tid),
            final(self).same_except(&*old(self), tid),
            r.spec_tid() == tid,
            final(self).local_pins(tid) == old(self).local_pins(tid) + 1,
            final(self).local_list(tid) == old(self).local_list(tid),
            final(self).local_buffer(tid) == old(self).local_buffer(tid),
            final(self).local_limit(tid) == old(self).local_limit(tid),
            final(self).local_deferred(tid) == old(self).local_deferred(tid),
            final(self).free_objs() == old(self).free_objs(),
            final(self).free_regions() == old(self).free_regions(),
    {
        let mut t = self.tl_alloc(tid);
        t.inner.pin();
        self.thread.set(tid, t);
        assert(self.threads().remove(tid) =~= old(self).threads().remove(tid));
        AllocGuard { tid, _marker: PhantomData }
    }

    /// Ends the pin `guard`. When it was its thread's last pin, the thread's
    /// deferred frees take place, in the order they were deferred.
    pub fn unpin(&mut self, guard: AllocGuard<T, B>)
        requires
            old(self).wf(),
            old(self).local_pins(guard.spec_tid()) > 0,
        ensures
            final(self).wf(),
            final(self).has_thread(guard.spec_tid()),
            final(self).same_except(&*old(self), guard.spec_tid()),
            final(self).local_pins(guard.spec_tid()) == old(self).local_pins(guard.spec_tid()) - 1,
            final(self).local_pins(guard.spec_tid()) > 0 ==> {
                &&& final(self).local_deferred(guard.spec_tid()) == old(self).local_deferred(
                    guard.spec_tid(),
                )
                &&& final(self).local_list(guard.spec_tid()) == old(self).local_list(
                    guard.spec_tid(),
                )
                &&& final(self).free_objs() == old(self).free_objs()
            },
            final(self).local_pins(guard.spec_tid()) == 0 ==> {
                &&& final(self).local_deferred(guard.spec_tid()) == Seq::<usize>::empty()
                &&& final(self).free_objs() + final(self).local_list(guard.spec_tid()) == old(self).free_objs() + old(self).local_list(guard.spec_tid()) + old(self).local_deferred(
                    guard.spec_tid(),
                )
            },
            final(self).local_pins(guard.spec_tid()) == 0 && old(self).local_list(guard.spec_tid()).len()
                + old(self).local_deferred(guard.spec_tid()).len() <= MAX_BUFFERS * B ==> {
                &&& final(self).local_list(guard.spec_tid()) == old(self).local_list(guard.spec_tid())
                    + old(self).local_deferred(guard.spec_tid())
                &&& final(self).free_objs() == old(self).free_objs()
            },
            final(self).local_buffer(guard.spec_tid()) == old(self).local_buffer(guard.spec_tid()),
            final(self).local_limit(guard.spec_tid()) == old(self).local_limit(guard.spec_tid()),
            final(self).free_regions() == old(self).free_regions(),
    {
        let tid = guard.tid;
        let mut t = self.tl_alloc(tid);
        t.inner.unpin(&mut self.shared);
        self.thread.set(tid, t);
        assert(self.threads().remove(tid) =~= old(self).threads().remove(tid));
        assert(old(self).free_objs() + old(self).local_list(tid) + old(self).local_deferred(tid)
            =~= old(self).free_objs() + (old(self).local_list(tid) + old(self).local_deferred(tid)));
        assert(self.free_objs() + self.local_list(tid) =~= self.shared.free_objs_view() + t.inner.free_list_view());
    }

    /// Thread `tid` is leaving: its region tail and its cache go to the
    /// shared pools and its state is dropped.
    pub fn thread_exit(&mut self, tid: u64)
        requires
            old(self).wf(),
        ensures
            final(self).wf(),
            !final(self).has_thread(tid),
            final(self).same_except(&*old(self), tid),
            final(self).free_objs() == old(self).free_objs() + old(self).local_list(tid),
            old(self).local_buffer(tid) != old(self).local_limit(tid) ==> final(self).free_regions()
                == old(self).free_regions().push(
                (old(self).local_buffer(tid), old(self).local_limit(tid)),
            ),
            old(self).local_buffer(tid) == old(self).local_limit(tid) ==> final(self).free_regions()
                == old(self).free_regions(),
    {
        let mut t = self.tl_alloc(tid);
        t.inner.return_resources(&mut self.shared);
        assert(self.threads().remove(tid) =~= old(self).threads().remove(tid));
    }

    /// Tears the allocator down: hands out the base of every region ever
    /// taken from the system, newest first, each once, for release.
    pub fn release_all(&mut self) -> (r: Vec<usize>)
        requires
            old(self).wf(),
        ensures
            final(self).wf(),
            r@ == old(self).all_regions().reverse(),
            final(self).all_regions() == Seq::<usize>::empty(),
    {
        let mut r: Vec<usize> = Vec::new();
        loop
            invariant
                self.wf(),
                old(self).all_regions() == self.all_regions() + r@.reverse(),
            decreases self.all_regions().len(),
        {
            let ghost before = self.shared.all_buffers@;
            match self.shared.all_buffers.pop() {
                Some(base) => {
                    r.push(base);
                    proof {
                        assert(r@.reverse() =~= seq![base] + r@.drop_last().reverse());
                        assert(before =~= self.shared.all_buffers@.push(base));
                        assert(old(self).all_regions() =~= self.all_regions() + r@.reverse());
                    }
                },
                None => {
                    proof {
                        assert(self.all_regions().len() == 0);
                        assert(old(self).all_regions() =~= r@.reverse());
                        assert(r@.reverse().reverse() =~= r@);
                        assert(self.all_regions() =~= Seq::<usize>::empty());
                    }
                    return r;
                },
            }
        }
    }
}

impl<T, const B: usize> AllocGuard<T, B> {
    /// Defers freeing `ptr` until the pinned thread's last pin ends.
    pub fn defer_free(&self, alloc: &mut Allocator<T, B>, ptr: usize)
        requires
            old(alloc).wf(),
        ensures
            final(alloc).wf(),
            final(alloc).has_thread(self.spec_tid()),
            final(alloc).same_except(&*old(alloc), self.spec_tid()),
            final(alloc).local_deferred(self.spec_tid()) == old(alloc).local_deferred(
                self.spec_tid(),
            ).push(ptr),
            final(alloc).local_pins(self.spec_tid()) == old(alloc).local_pins(self.spec_tid()),
            final(alloc).local_list(self.spec_tid()) == old(alloc).local_list(self.spec_tid()),
            final(alloc).local_buffer(self.spec_tid()) == old(alloc).local_buffer(self.spec_tid()),
            final(alloc).local_limit(self.spec_tid()) == old(alloc).local_limit(self.spec_tid()),
            final(alloc).free_objs() == old(alloc).free_objs(),
            final(alloc).free_regions() == old(alloc).free_regions(),
    {
        let tid = self.tid;
        let mut t = alloc.tl_alloc(tid);
        t.inner.defer(ptr);
        alloc.thread.set(tid, t);
        assert(alloc.threads().remove(tid) =~= old(alloc).threads().remove(tid));
    }

    /// `Allocator::allocate` for the pinned thread.
    pub fn allocate(&self, alloc: &mut Allocator<T, B>) -> (r: Option<usize>)
        requires
            old(alloc).wf(),
        ensures
            final(alloc).wf(),
            final(alloc).has_thread(self.spec_tid()),
            final(alloc).same_except(&*old(alloc), self.spec_tid()),
            alloc_step::<T>(
                old(alloc).local_list(self.spec_tid()),
                old(alloc).local_buffer(self.spec_tid()) as int,
                old(alloc).local_limit(self.spec_tid()) as int,
                old(alloc).free_objs(),
                old(alloc).free_obj_nodes(),
                old(alloc).free_regions(),
                final(alloc).local_list(self.spec_tid()),
                final(alloc).local_buffer(self.spec_tid()) as int,
                final(alloc).local_limit(self.spec_tid()) as int,
                final(alloc).free_objs(),
                final(alloc).free_obj_nodes(),
                final(alloc).free_regions(),
                r,
            ),
            final(alloc).local_pins(self.spec_tid()) == old(alloc).local_pins(self.spec_tid()),
            final(alloc).local_deferred(self.spec_tid()) == old(alloc).local_deferred(
                self.spec_tid(),
            ),
    {
        alloc.allocate(self.tid)
    }

    /// `Allocator::free` for the pinned thread: takes effect at once.
    pub fn free(&self, alloc: &mut Allocator<T, B>, addr: usize)
        requires
            old(alloc).wf(),
        ensures
            final(alloc).wf(),
            final(alloc).has_thread(self.spec_tid()),
            final(alloc).same_except(&*old(alloc), self.spec_tid()),
            final(alloc).free_objs() + final(alloc).local_list(self.spec_tid()) == old(alloc).free_objs() + old(alloc).local_list(self.spec_tid()).push(addr),
            final(alloc).local_pins(self.spec_tid()) == old(alloc).local_pins(self.spec_tid()),
            final(alloc).local_deferred(self.spec_tid()) == old(alloc).local_deferred(
                self.spec_tid(),
            ),
            final(alloc).local_buffer(self.spec_tid()) == old(alloc).local_buffer(self.spec_tid()),
            final(alloc).local_limit(self.spec_tid()) == old(alloc).local_limit(self.spec_tid()),
            final(alloc).free_regions() == old(alloc).free_regions(),
    {
        alloc.free(self.tid, addr)
    }
}

/// Teardown gives back every region recorded, each exactly as often as it
/// was recorded: `release_all` returns the records in reverse, so as a
/// multiset they are the same, and a region taken once is released once.
pub proof fn lemma_teardown_releases_each_once<T, const B: usize>(
    a: Allocator<T, B>,
    released: Seq<usize>,
)
    requires
        released == a.all_regions().reverse(),
    ensures
        released.to_multiset() == a.all_regions().to_multiset(),
        forall|base: usize|
            #[trigger] released.to_multiset().count(base) == a.all_regions().to_multiset().count(
                base,
            ),
{
    a.all_regions().lemma_reverse_to_multiset();
}

} // verus!

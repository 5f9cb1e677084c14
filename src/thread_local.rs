use vstd::prelude::*;
use std::collections::HashMap;
use crate::stack::LinkedRingBufferStack;

verus! {

/// Ids below this index live in the fast array of a `ThreadLocal`.
pub const FAST_THREADS: usize = 512;

/// Node capacity of the stack of released ids.
pub const ID_NODE_CAP: usize = 64;

/// Relies on num_cpus::get: the number of CPUs this process may use, which
/// its documentation says is always at least 1.
#[verifier::external_body]
fn available_cpus() -> (r: usize)
    ensures
        r >= 1,
{
    num_cpus::get()
}

/// Issues small thread ids: a released id is handed out again before a new
/// one is taken from the counter.
pub struct ThreadIdRegistry {
    free_ids: LinkedRingBufferStack<u64, ID_NODE_CAP>,
    counter: u64,
}

/// Per-thread record of the id the thread holds.
pub struct ThreadMeta {
    hash: u64,
}

impl ThreadIdRegistry {
    /// Ids issued so far and not released: those below the counter that are
    /// not waiting in the free stack.
    pub closed spec fn live(&self) -> Set<u64> {
        Set::new(|id: u64| id < self.counter && !self.free_ids@.contains(id))
    }

    pub closed spec fn spec_counter(&self) -> u64 {
        self.counter
    }

    pub closed spec fn released(&self) -> Seq<u64> {
        self.free_ids@
    }

    pub closed spec fn wf(&self) -> bool {
        &&& self.free_ids.wf()
        &&& self.free_ids@.no_duplicates()
        &&& forall|i: int| 0 <= i < self.free_ids@.len() ==> #[trigger] self.free_ids@[i] < self.counter
    }

    pub fn new() -> (r: Self)
        ensures
            r.wf(),
            r.live() == Set::<u64>::empty(),
            r.spec_counter() == 0,
            r.released() == Seq::<u64>::empty(),
    {
        let r = ThreadIdRegistry { free_ids: LinkedRingBufferStack::new(), counter: 0 };
        assert(r.live() =~= Set::<u64>::empty());
        r
    }

    /// Hands out an id that no live thread holds: the most recently released
    /// one, else the next value of the counter. `None` only when no id was
    /// released and the counter is exhausted.
    pub fn acquire(&mut self) -> (r: Option<u64>)
        requires
            old(self).wf(),
        ensures
            final(self).wf(),
            old(self).released().len() > 0 ==> r == Some(old(self).released().last())
                && final(self).spec_counter() == old(self).spec_counter(),
            old(self).released().len() == 0 && old(self).spec_counter() < u64::MAX ==> r == Some(
                old(self).spec_counter(),
            ) && final(self).spec_counter() == old(self).spec_counter() + 1,
            r is None <==> old(self).released().len() == 0 && old(self).spec_counter() == u64::MAX,
            r matches Some(id) ==> !old(self).live().contains(id) && final(self).live() == old(self).live().insert(id),
            r is None ==> final(self).live() == old(self).live() && final(self).spec_counter() == old(self).spec_counter(),
            old(self).released().len() > 0 ==> final(self).released() == old(self).released().drop_last(),
            old(self).released().len() == 0 ==> final(self).released() == old(self).released(),
    {
        let ghost old_free = self.free_ids@;
        match self.free_ids.pop() {
            Some(id) => {
                proof {
                    assert(old_free.last() == old_free[old_free.len() - 1]);
                    assert(old_free =~= old_free.drop_last().push(id));
                    assert(!self.free_ids@.contains(id)) by {
                        if self.free_ids@.contains(id) {
                            let j = choose|j: int| 0 <= j < self.free_ids@.len() && self.free_ids@[j] == id;
                            assert(old_free[j] == old_free[old_free.len() - 1]);
                        }
                    }
                    assert forall|x: u64| #[trigger] self.free_ids@.contains(x) implies old_free.contains(x) && x != id by {
                        let j = choose|j: int| 0 <= j < self.free_ids@.len() && self.free_ids@[j] == x;
                        assert(old_free[j] == x);
                    }
                    assert forall|x: u64| #[trigger] old_free.contains(x) && x != id implies self.free_ids@.contains(x) by {
                        let j = choose|j: int| 0 <= j < old_free.len() && old_free[j] == x;
                        assert(j < old_free.len() - 1);
                        assert(self.free_ids@[j] == x);
                    }
                    assert(old_free.contains(id)) by {
                        assert(old_free[old_free.len() - 1] == id);
                    }
                    assert(self.live() =~= old(self).live().insert(id));
                    assert forall|i: int| 0 <= i < self.free_ids@.len() implies #[trigger] self.free_ids@[i] < self.counter by {
                        assert(self.free_ids@[i] == old_free[i]);
                    }
                    assert(self.free_ids@.no_duplicates()) by {
                        assert forall|i: int, j: int| 0 <= i < j < self.free_ids@.len() implies self.free_ids@[i] != self.free_ids@[j] by {
                            assert(self.free_ids@[i] == old_free[i]);
                            assert(self.free_ids@[j] == old_free[j]);
                        }
                    }
                }
                Some(id)
            },
            None => {
                if self.counter == u64::MAX {
                    return None;
                }
                let id = self.counter;
                self.counter = self.counter + 1;
                assert(self.live() =~= old(self).live().insert(id));
                Some(id)
            },
        }
    }

    /// Takes back a live id for later reuse.
    pub fn release(&mut self, id: u64)
        requires
            old(self).wf(),
            old(self).live().contains(id),
        ensures
            final(self).wf(),
            final(self).live() == old(self).live().remove(id),
            final(self).released() == old(self).released().push(id),
            final(self).spec_counter() == old(self).spec_counter(),
    {
        let ghost old_free = self.free_ids@;
        self.free_ids.push(id);
        proof {
            assert forall|x: u64| #[trigger] self.free_ids@.contains(x) <==> (old_free.contains(x) || x == id) by {
                if self.free_ids@.contains(x) && x != id {
                    let j = choose|j: int| 0 <= j < self.free_ids@.len() && self.free_ids@[j] == x;
                    assert(old_free[j] == x);
                }
                if old_free.contains(x) {
                    let j = choose|j: int| 0 <= j < old_free.len() && old_free[j] == x;
                    assert(self.free_ids@[j] == x);
                }
                if x == id {
                    assert(self.free_ids@[old_free.len() as int] == id);
                }
            }
            assert(self.live() =~= old(self).live().remove(id));
            assert forall|i: int| 0 <= i < self.free_ids@.len() implies #[trigger] self.free_ids@[i] < self.counter by {
                if i < old_free.len() {
                    assert(self.free_ids@[i] == old_free[i]);
                }
            }
            assert(self.free_ids@.no_duplicates()) by {
                assert forall|i: int, j: int| 0 <= i < j < self.free_ids@.len() implies self.free_ids@[i] != self.free_ids@[j] by {
                    assert(self.free_ids@[i] == old_free[i]);
                    if j < old_free.len() {
                        assert(self.free_ids@[j] == old_free[j]);
                    } else {
                        assert(old_free.contains(self.free_ids@[i]));
                    }
                }
            }
        }
    }
}

impl ThreadMeta {
    pub closed spec fn spec_hash(&self) -> u64 {
        self.hash
    }

    /// Registers a thread: takes an id from the registry.
    pub fn new(registry: &mut ThreadIdRegistry) -> (r: Option<ThreadMeta>)
        requires
            old(registry).wf(),
        ensures
            final(registry).wf(),
            r matches Some(m) ==> !old(registry).live().contains(m.spec_hash()) && final(registry).live() == old(registry).live().insert(m.spec_hash()),
            r is None <==> old(registry).released().len() == 0 && old(registry).spec_counter()
                == u64::MAX,
            r is None ==> final(registry).live() == old(registry).live(),
            old(registry).released().len() > 0 ==> (r matches Some(m) && m.spec_hash() == old(registry).released().last()),
            old(registry).released().len() == 0 && old(registry).spec_counter() < u64::MAX ==> (r matches Some(m) && m.spec_hash() == old(registry).spec_counter()),
            old(registry).released().len() > 0 ==> final(registry).released() == old(registry).released().drop_last(),
            old(registry).released().len() == 0 ==> final(registry).released() == old(registry).released(),
            final(registry).spec_counter() == old(registry).spec_counter() + if old(registry).released().len() == 0 && r is Some { 1int } else { 0int },
    {
        match registry.acquire() {
            Some(hash) => Some(ThreadMeta { hash }),
            None => None,
        }
    }

    /// The id this thread holds.
    pub fn get_hash(&self) -> (r: u64)
        ensures
            r == self.spec_hash(),
    {
        self.hash
    }

    /// Unregisters the thread: its id goes back to the registry.
    pub fn release(self, registry: &mut ThreadIdRegistry)
        requires
            old(registry).wf(),
            old(registry).live().contains(self.spec_hash()),
        ensures
            final(registry).wf(),
            final(registry).live() == old(registry).live().remove(self.spec_hash()),
            final(registry).released() == old(registry).released().push(self.spec_hash()),
    {
        registry.release(self.hash);
    }
}

/// Per-thread values keyed by thread id: ids below `FAST_THREADS` index a
/// fixed array, larger ids go to a map.
pub struct ThreadLocal<T> {
    fast_map: Vec<Option<T>>,
    reserve_map: HashMap<u64, T>,
}

impl<T> ThreadLocal<T> {
    /// The value of each thread that has one.
    pub closed spec fn view(&self) -> Map<u64, T> {
        Map::new(
            |id: u64|
                if id < FAST_THREADS {
                    self.fast_map@[id as int] is Some
                } else {
                    self.reserve_map@.contains_key(id)
                },
            |id: u64|
                if id < FAST_THREADS {
                    self.fast_map@[id as int]->Some_0
                } else {
                    self.reserve_map@[id]
                },
        )
    }

    pub closed spec fn wf(&self) -> bool {
        &&& self.fast_map@.len() == FAST_THREADS
        &&& forall|id: u64| #[trigger] self.reserve_map@.contains_key(id) ==> id >= FAST_THREADS
    }

    /// A registry in which no thread has a value yet.
    pub fn new() -> (r: Self)
        ensures
            r.wf(),
            r@ == Map::<u64, T>::empty(),
    {
        let mut fast_map: Vec<Option<T>> = Vec::new();
        let mut i: usize = 0;
        while i < FAST_THREADS
            invariant
                i <= FAST_THREADS,
                fast_map@.len() == i,
                forall|j: int| 0 <= j < i ==> #[trigger] fast_map@[j] is None,
            decreases FAST_THREADS - i,
        {
            fast_map.push(None);
            i = i + 1;
        }
        let reserve_map: HashMap<u64, T> = HashMap::with_capacity(available_cpus());
        let r = ThreadLocal { fast_map, reserve_map };
        assert(r@ =~= Map::<u64, T>::empty());
        r
    }

    /// The value of thread `id`, made by `new` if the thread has none yet.
    /// `new` runs at most once per id: a thread that has a value gets that
    /// same value back and the registry is left as it was. `None` when the
    /// caller has no id (its thread is shutting down).
    pub fn get_or<F: Fn() -> T>(&mut self, id: Option<u64>, new: F) -> (r: Option<&T>)
        requires
            old(self).wf(),
            new.requires(()),
        ensures
            final(self).wf(),
            id is None ==> r is None && final(self)@ == old(self)@,
            id matches Some(i) ==> r matches Some(v) && final(self)@.contains_key(i) && *v
                == final(self)@[i],
            id matches Some(i) ==> (old(self)@.contains_key(i) ==> final(self)@ == old(self)@),
            id matches Some(i) ==> (!old(self)@.contains_key(i) ==> new.ensures(
                (),
                final(self)@[i],
            ) && final(self)@ == old(self)@.insert(i, final(self)@[i])),
    {
        match id {
            None => None,
            Some(hash) => {
                let idx = hash;
                if idx < FAST_THREADS as u64 {
                    let i = idx as usize;
                    if self.fast_map[i].is_none() {
                        let v = new();
                        self.fast_map.set(i, Some(v));
                        assert(self@ =~= old(self)@.insert(hash, v));
                    }
                    match &self.fast_map[i] {
                        Some(v) => Some(v),
                        None => None,
                    }
                } else {
                    if !self.reserve_map.contains_key(&hash) {
                        let v = new();
                        self.reserve_map.insert(hash, v);
                        assert(self@ =~= old(self)@.insert(hash, v));
                    }
                    self.reserve_map.get(&hash)
                }
            },
        }
    }

    /// The value of thread `id`, if it has one.
    pub fn get(&self, id: u64) -> (r: Option<&T>)
        requires
            self.wf(),
        ensures
            self@.contains_key(id) ==> (r matches Some(v) && *v == self@[id]),
            !self@.contains_key(id) ==> r is None,
    {
        if id < FAST_THREADS as u64 {
            match &self.fast_map[id as usize] {
                Some(v) => Some(v),
                None => None,
            }
        } else {
            self.reserve_map.get(&id)
        }
    }

    /// Removes and returns the value of thread `id`.
    pub fn take(&mut self, id: u64) -> (r: Option<T>)
        requires
            old(self).wf(),
        ensures
            final(self).wf(),
            final(self)@ == old(self)@.remove(id),
            old(self)@.contains_key(id) ==> r == Some(old(self)@[id]),
            !old(self)@.contains_key(id) ==> r is None,
    {
        if id < FAST_THREADS as u64 {
            let i = id as usize;
            let ghost before = self.fast_map@;
            let v = self.fast_map.remove(i);
            self.fast_map.insert(i, None);
            assert(self.fast_map@ =~= before.update(i as int, None));
            assert(self@ =~= old(self)@.remove(id));
            v
        } else {
            let v = self.reserve_map.remove(&id);
            assert(self@ =~= old(self)@.remove(id));
            v
        }
    }

    /// Gives thread `id` the value `v`, replacing any it had.
    pub fn set(&mut self, id: u64, v: T)
        requires
            old(self).wf(),
        ensures
            final(self).wf(),
            final(self)@ == old(self)@.insert(id, v),
    {
        if id < FAST_THREADS as u64 {
            self.fast_map.set(id as usize, Some(v));
        } else {
            self.reserve_map.insert(id, v);
        }
        assert(self@ =~= old(self)@.insert(id, v));
    }
}

/// Two `get_or` calls for one id: the second finds the value the first
/// left, makes nothing new, changes nothing and returns the same value. The
/// requirements are what `get_or` ensures for each call.
pub proof fn lemma_get_or_once<T>(
    m0: Map<u64, T>,
    id: u64,
    m1: Map<u64, T>,
    v1: T,
    m2: Map<u64, T>,
    v2: T,
)
    requires
        m1.contains_key(id),
        v1 == m1[id],
        m0.contains_key(id) ==> m1 == m0,
        m2.contains_key(id),
        v2 == m2[id],
        m1.contains_key(id) ==> m2 == m1,
    ensures
        m2 == m1,
        v2 == v1,
{
}

} // verus!

use vstd::prelude::*;
use crate::obj_alloc::{alloc_step, bump_size, last_roomy, lemma_last_roomy, obj_size, Allocator};
use crate::stack::{last_nonempty, lemma_last_nonempty};

verus! {

/// `x` waits in the shared pool of donated objects.
pub open spec fn in_pool<T, const B: usize>(a: Allocator<T, B>, x: usize) -> bool {
    a.free_objs().contains(x)
}

/// `x` waits in the cache of thread `t`.
pub open spec fn in_list<T, const B: usize>(a: Allocator<T, B>, t: u64, x: usize) -> bool {
    a.has_thread(t) && a.local_list(t).contains(x)
}

/// `x` lies in the unused part of thread `t`'s region.
pub open spec fn in_reg<T, const B: usize>(a: Allocator<T, B>, t: u64, x: usize) -> bool {
    a.has_thread(t) && a.local_buffer(t) <= x < a.local_limit(t)
}

/// `x` lies in the `j`-th returned region tail.
pub open spec fn in_tail<T, const B: usize>(a: Allocator<T, B>, j: int, x: usize) -> bool {
    0 <= j < a.free_regions().len() && a.free_regions()[j].0 <= x < a.free_regions()[j].1
}

/// Everything the allocator may still hand out is held in one place only,
/// once, and none of it is in `live`, the set of objects handed out and not
/// freed since.
pub open spec fn available_disjoint<T, const B: usize>(a: Allocator<T, B>, live: Set<usize>) -> bool {
    &&& a.free_objs().no_duplicates()
    &&& forall|t: u64| a.has_thread(t) ==> (#[trigger] a.local_list(t)).no_duplicates()
    &&& forall|x: usize, t: u64|
        #![trigger in_pool(a, x), in_list(a, t, x)]
        !(in_pool(a, x) && in_list(a, t, x))
    &&& forall|x: usize, t: u64|
        #![trigger in_pool(a, x), in_reg(a, t, x)]
        !(in_pool(a, x) && in_reg(a, t, x))
    &&& forall|x: usize, j: int|
        #![trigger in_pool(a, x), in_tail(a, j, x)]
        !(in_pool(a, x) && in_tail(a, j, x))
    &&& forall|x: usize, t1: u64, t2: u64|
        #![trigger in_list(a, t1, x), in_reg(a, t2, x)]
        !(in_list(a, t1, x) && in_reg(a, t2, x))
    &&& forall|x: usize, t1: u64, t2: u64|
        #![trigger in_list(a, t1, x), in_list(a, t2, x)]
        t1 != t2 ==> !(in_list(a, t1, x) && in_list(a, t2, x))
    &&& forall|x: usize, t: u64, j: int|
        #![trigger in_list(a, t, x), in_tail(a, j, x)]
        !(in_list(a, t, x) && in_tail(a, j, x))
    &&& forall|x: usize, t1: u64, t2: u64|
        #![trigger in_reg(a, t1, x), in_reg(a, t2, x)]
        t1 != t2 ==> !(in_reg(a, t1, x) && in_reg(a, t2, x))
    &&& forall|x: usize, t: u64, j: int|
        #![trigger in_reg(a, t, x), in_tail(a, j, x)]
        !(in_reg(a, t, x) && in_tail(a, j, x))
    &&& forall|x: usize, j1: int, j2: int|
        #![trigger in_tail(a, j1, x), in_tail(a, j2, x)]
        j1 != j2 ==> !(in_tail(a, j1, x) && in_tail(a, j2, x))
    &&& forall|x: usize| #[trigger] live.contains(x) ==> !in_pool(a, x)
    &&& forall|x: usize, t: u64|
        #![trigger live.contains(x), in_list(a, t, x)]
        !(live.contains(x) && in_list(a, t, x))
    &&& forall|x: usize, t: u64|
        #![trigger live.contains(x), in_reg(a, t, x)]
        !(live.contains(x) && in_reg(a, t, x))
    &&& forall|x: usize, j: int|
        #![trigger live.contains(x), in_tail(a, j, x)]
        !(live.contains(x) && in_tail(a, j, x))
}

proof fn lemma_concat_contains(p: Seq<usize>, q: Seq<usize>, x: usize)
    ensures
        (p + q).contains(x) <==> p.contains(x) || q.contains(x),
{
    if p.contains(x) {
        let i = choose|i: int| 0 <= i < p.len() && p[i] == x;
        assert((p + q)[i] == x);
    }
    if q.contains(x) {
        let i = choose|i: int| 0 <= i < q.len() && q[i] == x;
        assert((p + q)[p.len() + i] == x);
    }
    if (p + q).contains(x) {
        let i = choose|i: int| 0 <= i < (p + q).len() && (p + q)[i] == x;
        if i < p.len() {
            assert(p[i] == x);
        } else {
            assert(q[i - p.len()] == x);
        }
    }
}

proof fn lemma_split_no_dup(p: Seq<usize>, q: Seq<usize>)
    requires
        (p + q).no_duplicates(),
    ensures
        p.no_duplicates(),
        q.no_duplicates(),
        forall|x: usize| p.contains(x) ==> !q.contains(x),
{
    let s = p + q;
    assert forall|i: int, j: int| 0 <= i < j < p.len() implies p[i] != p[j] by {
        assert(s[i] == p[i] && s[j] == p[j]);
    }
    assert forall|i: int, j: int| 0 <= i < j < q.len() implies q[i] != q[j] by {
        assert(s[p.len() + i] == q[i] && s[p.len() + j] == q[j]);
    }
    assert forall|x: usize| p.contains(x) implies !q.contains(x) by {
        let i = choose|i: int| 0 <= i < p.len() && p[i] == x;
        if q.contains(x) {
            let j = choose|j: int| 0 <= j < q.len() && q[j] == x;
            assert(s[i] == s[p.len() + j]);
        }
    }
}

proof fn lemma_join_no_dup(p: Seq<usize>, q: Seq<usize>)
    requires
        p.no_duplicates(),
        q.no_duplicates(),
        forall|x: usize| p.contains(x) ==> !q.contains(x),
    ensures
        (p + q).no_duplicates(),
{
    let s = p + q;
    assert forall|i: int, j: int| 0 <= i < j < s.len() implies s[i] != s[j] by {
        if i < p.len() && j >= p.len() {
            assert(p.contains(s[i]));
            assert(q[j - p.len()] == s[j]);
            assert(q.contains(s[j]));
        } else if i >= p.len() {
            assert(s[i] == q[i - p.len()] && s[j] == q[j - p.len()]);
        }
    }
}

proof fn lemma_other_threads<T, const B: usize>(a0: Allocator<T, B>, a1: Allocator<T, B>, tid: u64)
    requires
        a1.same_except(&a0, tid),
    ensures
        forall|t: u64|
            t != tid ==> {
                &&& (#[trigger] a1.has_thread(t)) == a0.has_thread(t)
                &&& a1.local_list(t) == a0.local_list(t)
                &&& a1.local_buffer(t) == a0.local_buffer(t)
                &&& a1.local_limit(t) == a0.local_limit(t)
            },
{
    assert forall|t: u64| t != tid implies {
        &&& (#[trigger] a1.has_thread(t)) == a0.has_thread(t)
        &&& a1.local_list(t) == a0.local_list(t)
        &&& a1.local_buffer(t) == a0.local_buffer(t)
        &&& a1.local_limit(t) == a0.local_limit(t)
    } by {
        assert(a1.threads().remove(tid).contains_key(t) == a1.threads().contains_key(t));
        assert(a0.threads().remove(tid).contains_key(t) == a0.threads().contains_key(t));
        if a1.has_thread(t) {
            assert(a1.threads().remove(tid)[t] == a1.threads()[t]);
            assert(a0.threads().remove(tid)[t] == a0.threads()[t]);
        }
    }
}

/// A handed-out object is new: when everything the allocator may hand out
/// is held once and apart from the live objects, `allocate` returns an
/// object that is not live, and the same holds afterwards with that object
/// live. The requirements on `a1` are what `Allocator::allocate` ensures.
pub proof fn lemma_allocate_fresh<T, const B: usize>(
    a0: Allocator<T, B>,
    a1: Allocator<T, B>,
    tid: u64,
    r: Option<usize>,
    live: Set<usize>,
)
    requires
        a0.wf(),
        available_disjoint(a0, live),
        a1.has_thread(tid),
        a1.same_except(&a0, tid),
        alloc_step::<T>(
            a0.local_list(tid),
            a0.local_buffer(tid) as int,
            a0.local_limit(tid) as int,
            a0.free_objs(),
            a0.free_obj_nodes(),
            a0.free_regions(),
            a1.local_list(tid),
            a1.local_buffer(tid) as int,
            a1.local_limit(tid) as int,
            a1.free_objs(),
            a1.free_obj_nodes(),
            a1.free_regions(),
            r,
        ),
        obj_size::<T>() > 0,
    ensures
        r matches Some(p) ==> !live.contains(p) && available_disjoint(a1, live.insert(p)),
        r is None ==> available_disjoint(a1, live),
{
    lemma_other_threads(a0, a1, tid);
    let l0 = a0.local_list(tid);
    let l1 = a1.local_list(tid);
    let p0 = a0.free_objs();
    let p1 = a1.free_objs();
    let g0 = a0.free_regions();
    let g1 = a1.free_regions();
    let b0 = a0.local_buffer(tid);
    let m0 = a0.local_limit(tid);
    let room = b0 + obj_size::<T>() <= m0;
    let n0 = a0.free_obj_nodes();
    let k = last_nonempty(n0);
    let tt = last_roomy::<T>(g0);
    lemma_last_nonempty(n0);
    lemma_last_roomy::<T>(g0);
    if !a0.has_thread(tid) {
        assert(l0 =~= Seq::<usize>::empty());
    }
    // every place of the new state lies in a place of the old one
    assert forall|x: usize, j: int| #[trigger] in_tail(a1, j, x) implies in_tail(a0, j, x) by {
        if l0.len() == 0 && !room && k < 0 && tt >= 0 {
            assert(g1[j] == g0[j]);
        }
    }
    if l0.len() > 0 {
        let p = l0.last();
        assert(l0 =~= l1.push(p));
        assert(a0.has_thread(tid));
        assert(l0.contains(p)) by { assert(l0[l0.len() - 1] == p); }
        assert(in_list(a0, tid, p));
        assert(!l1.contains(p)) by {
            if l1.contains(p) {
                let i = choose|i: int| 0 <= i < l1.len() && l1[i] == p;
                assert(l0[i] == l0[l0.len() - 1]);
            }
        }
        assert forall|x: usize| l1.contains(x) implies l0.contains(x) by {
            let i = choose|i: int| 0 <= i < l1.len() && l1[i] == x;
            assert(l0[i] == x);
        }
        assert(l1.no_duplicates()) by {
            assert forall|i: int, j: int| 0 <= i < j < l1.len() implies l1[i] != l1[j] by {
                assert(l0[i] == l1[i] && l0[j] == l1[j]);
            }
        }
        assert forall|x: usize, t: u64| #[trigger] in_list(a1, t, x) implies in_list(a0, t, x) && (t
            == tid ==> x != p) by {}
        assert forall|x: usize, t: u64| #[trigger] in_reg(a1, t, x) implies in_reg(a0, t, x) by {}
        assert forall|x: usize| #[trigger] in_pool(a1, x) implies in_pool(a0, x) by {}
        assert(available_disjoint(a1, live.insert(p)));
    } else if room {
        let p = b0;
        assert(a0.has_thread(tid));
        assert(in_reg(a0, tid, p));
        assert forall|x: usize, t: u64| #[trigger] in_list(a1, t, x) implies in_list(a0, t, x) by {}
        assert forall|x: usize, t: u64| #[trigger] in_reg(a1, t, x) implies in_reg(a0, t, x) && (t
            == tid ==> x != p) by {}
        assert forall|x: usize| #[trigger] in_pool(a1, x) implies in_pool(a0, x) by {}
        assert(available_disjoint(a1, live.insert(p)));
    } else if k >= 0 {
        let p = n0[k].last();
        assert(p0 == p1 + l1.push(p));
        assert(p0.last() == p);
        lemma_split_no_dup(p1, l1.push(p));
        assert(l1.push(p) =~= l1 + seq![p]);
        lemma_split_no_dup(l1, seq![p]);
        assert(p0.contains(p)) by { assert(p0[p0.len() - 1] == p); }
        assert(!p1.contains(p)) by { assert(l1.push(p).contains(p)) by { assert(l1.push(p)[l1.len() as int] == p); } }
        assert(!l1.contains(p)) by { assert(seq![p].contains(p)) by { assert(seq![p][0] == p); } }
        assert forall|x: usize| p1.contains(x) implies p0.contains(x) by {
            lemma_concat_contains(p1, l1.push(p), x);
        }
        assert forall|x: usize| l1.contains(x) implies p0.contains(x) && !p1.contains(x) by {
            lemma_concat_contains(l1, seq![p], x);
            lemma_concat_contains(p1, l1.push(p), x);
        }
        assert(in_pool(a0, p));
        assert forall|x: usize, t: u64| #[trigger] in_list(a1, t, x) implies (t != tid && in_list(
            a0,
            t,
            x,
        )) || (t == tid && in_pool(a0, x) && !in_pool(a1, x) && x != p) by {}
        assert forall|x: usize, t: u64| #[trigger] in_reg(a1, t, x) implies in_reg(a0, t, x) by {}
        assert forall|x: usize| #[trigger] in_pool(a1, x) implies in_pool(a0, x) && x != p by {}
        assert(available_disjoint(a1, live.insert(p)));
    } else if tt >= 0 {
        let last = tt;
        let p = g0[last].0;
        assert(in_tail(a0, last, p));
        assert forall|x: usize, t: u64| #[trigger] in_list(a1, t, x) implies in_list(a0, t, x) by {}
        assert forall|x: usize, t: u64| #[trigger] in_reg(a1, t, x) implies (t != tid && in_reg(
            a0,
            t,
            x,
        )) || (t == tid && in_tail(a0, last, x) && x != p) by {}
        assert forall|x: usize| #[trigger] in_pool(a1, x) implies in_pool(a0, x) by {}
        assert forall|x: usize, j: int| #[trigger] in_tail(a1, j, x) implies j != last && in_tail(
            a0,
            j,
            x,
        ) by {
            assert(g1[j] == g0[j]);
        }
        assert(available_disjoint(a1, live.insert(p)));
    } else {
        assert forall|x: usize, t: u64| #[trigger] in_list(a1, t, x) implies in_list(a0, t, x) by {
            if t == tid && !a0.has_thread(tid) {
                assert(l1 =~= Seq::<usize>::empty());
            }
        }
        assert forall|x: usize, t: u64| #[trigger] in_reg(a1, t, x) implies in_reg(a0, t, x) by {}
        assert forall|x: usize| #[trigger] in_pool(a1, x) implies in_pool(a0, x) by {}
        assert(available_disjoint(a1, live));
    }
}

/// A fresh allocator holds nothing and has nothing live.
pub proof fn lemma_new_disjoint<T, const B: usize>(a: Allocator<T, B>)
    requires
        a.threads() == Map::<u64, crate::obj_alloc::TLAlloc<T, B>>::empty(),
        a.free_objs() == Seq::<usize>::empty(),
        a.free_regions() == Seq::<(usize, usize)>::empty(),
    ensures
        available_disjoint(a, Set::<usize>::empty()),
{
}

/// Freeing live objects `freed`, each once, into thread `tid`'s cache (and
/// through it the shared pool) keeps everything held once and apart from
/// the objects still live. The requirements on `a1` are what
/// `Allocator::unpin` ensures when the last pin ends.
pub proof fn lemma_free_all_disjoint<T, const B: usize>(
    a0: Allocator<T, B>,
    a1: Allocator<T, B>,
    tid: u64,
    freed: Seq<usize>,
    live: Set<usize>,
)
    requires
        available_disjoint(a0, live),
        freed.no_duplicates(),
        forall|i: int| 0 <= i < freed.len() ==> live.contains(#[trigger] freed[i]),
        a1.has_thread(tid),
        a1.same_except(&a0, tid),
        a1.free_objs() + a1.local_list(tid) == a0.free_objs() + a0.local_list(tid) + freed,
        a1.local_buffer(tid) == a0.local_buffer(tid),
        a1.local_limit(tid) == a0.local_limit(tid),
        a1.free_regions() == a0.free_regions(),
    ensures
        available_disjoint(a1, live.difference(freed.to_set())),
{
    lemma_other_threads(a0, a1, tid);
    let l0 = a0.local_list(tid);
    let l1 = a1.local_list(tid);
    let p0 = a0.free_objs();
    let p1 = a1.free_objs();
    if !a0.has_thread(tid) {
        assert(l0 =~= Seq::<usize>::empty());
    }
    // the old pool and cache with `freed` behind them hold each object once
    let la = l0 + freed;
    assert(p0 + l0 + freed =~= p0 + la);
    assert forall|x: usize| freed.contains(x) implies live.contains(x) by {
        let i = choose|i: int| 0 <= i < freed.len() && freed[i] == x;
    }
    assert forall|x: usize| l0.contains(x) implies !freed.contains(x) by {
        if freed.contains(x) {
            assert(in_list(a0, tid, x));
        }
    }
    lemma_join_no_dup(l0, freed);
    assert forall|x: usize| p0.contains(x) implies !la.contains(x) by {
        lemma_concat_contains(l0, freed, x);
        if l0.contains(x) {
            assert(in_list(a0, tid, x));
            assert(in_pool(a0, x));
        }
    }
    lemma_join_no_dup(p0, la);
    lemma_split_no_dup(p1, l1);
    assert forall|x: usize| #[trigger] in_pool(a1, x) || in_list(a1, tid, x) implies in_pool(a0, x)
        || in_list(a0, tid, x) || freed.contains(x) by {
        lemma_concat_contains(p1, l1, x);
        lemma_concat_contains(p0, la, x);
        lemma_concat_contains(l0, freed, x);
    }
    assert forall|x: usize, t: u64| #[trigger] in_list(a1, t, x) implies (t != tid && in_list(
        a0,
        t,
        x,
    )) || (t == tid && !in_pool(a1, x) && (in_pool(a0, x) || in_list(a0, tid, x)
        || freed.contains(x))) by {
        if t == tid {
            assert(in_pool(a1, x) || in_list(a1, tid, x));
        }
    }
    assert forall|x: usize| #[trigger] in_pool(a1, x) implies in_pool(a0, x) || in_list(a0, tid, x)
        || freed.contains(x) by {
        assert(in_pool(a1, x) || in_list(a1, tid, x));
    }
    assert forall|x: usize, t: u64| #[trigger] in_reg(a1, t, x) implies in_reg(a0, t, x) by {}
    assert forall|x: usize, j: int| #[trigger] in_tail(a1, j, x) implies in_tail(a0, j, x) by {}
    assert forall|x: usize| #[trigger] freed.contains(x) implies freed.to_set().contains(x) by {}
    assert(available_disjoint(a1, live.difference(freed.to_set())));
}

/// Freeing a live object keeps everything held once and apart from the
/// objects still live. The requirements on `a1` are what
/// `Allocator::free` ensures.
pub proof fn lemma_free_disjoint<T, const B: usize>(
    a0: Allocator<T, B>,
    a1: Allocator<T, B>,
    tid: u64,
    addr: usize,
    live: Set<usize>,
)
    requires
        available_disjoint(a0, live),
        live.contains(addr),
        a1.has_thread(tid),
        a1.same_except(&a0, tid),
        a1.free_objs() + a1.local_list(tid) == a0.free_objs() + a0.local_list(tid).push(addr),
        a1.local_buffer(tid) == a0.local_buffer(tid),
        a1.local_limit(tid) == a0.local_limit(tid),
        a1.free_regions() == a0.free_regions(),
    ensures
        available_disjoint(a1, live.remove(addr)),
{
    let freed = seq![addr];
    assert(a0.free_objs() + a0.local_list(tid).push(addr) =~= a0.free_objs() + a0.local_list(tid)
        + freed);
    assert(freed[0] == addr);
    lemma_free_all_disjoint(a0, a1, tid, freed, live);
    assert(freed.to_set() =~= set![addr]) by {
        assert forall|x: usize| freed.to_set().contains(x) <==> x == addr by {
            if x == addr {
                assert(freed.contains(x));
            }
        }
    }
    assert(live.difference(freed.to_set()) =~= live.remove(addr));
}

/// Pinning and deferring change no place an object can wait in, so they
/// keep everything held once and apart from the live objects. The
/// requirements on `a1` are what `Allocator::pin`, `AllocGuard::defer_free`
/// and a non-final `Allocator::unpin` ensure.
pub proof fn lemma_bookkeeping_disjoint<T, const B: usize>(
    a0: Allocator<T, B>,
    a1: Allocator<T, B>,
    tid: u64,
    live: Set<usize>,
)
    requires
        available_disjoint(a0, live),
        a1.has_thread(tid),
        a1.same_except(&a0, tid),
        a1.local_list(tid) == a0.local_list(tid),
        a1.local_buffer(tid) == a0.local_buffer(tid),
        a1.local_limit(tid) == a0.local_limit(tid),
        a1.free_objs() == a0.free_objs(),
        a1.free_regions() == a0.free_regions(),
    ensures
        available_disjoint(a1, live),
{
    lemma_other_threads(a0, a1, tid);
    if !a0.has_thread(tid) {
        assert(a0.local_list(tid) =~= Seq::<usize>::empty());
    }
    assert forall|x: usize, t: u64| #[trigger] in_list(a1, t, x) implies in_list(a0, t, x) by {}
    assert forall|x: usize, t: u64| #[trigger] in_reg(a1, t, x) implies in_reg(a0, t, x) by {}
    assert forall|x: usize| #[trigger] in_pool(a1, x) implies in_pool(a0, x) by {}
    assert forall|x: usize, j: int| #[trigger] in_tail(a1, j, x) implies in_tail(a0, j, x) by {}
}

/// The region `[base, base + bump_size)` meets nothing the allocator holds
/// and no live object: what the system allocator guarantees of a region it
/// has just handed out.
pub open spec fn region_is_fresh<T, const B: usize>(
    a: Allocator<T, B>,
    live: Set<usize>,
    base: usize,
) -> bool {
    forall|x: usize|
        base <= x < base + bump_size::<T>() ==> {
            &&& !live.contains(x)
            &&& !in_pool(a, x)
            &&& forall|t: u64| !in_list(a, t, x) && !in_reg(a, t, x)
            &&& forall|j: int| !in_tail(a, j, x)
        }
}

/// Starting on a fresh region hands out its first object, which is not
/// live, and keeps everything held once and apart from the live objects.
/// The requirements on `a1` are what `Allocator::alloc_in_new_region`
/// ensures.
pub proof fn lemma_new_region_fresh<T, const B: usize>(
    a0: Allocator<T, B>,
    a1: Allocator<T, B>,
    tid: u64,
    base: usize,
    live: Set<usize>,
)
    requires
        available_disjoint(a0, live),
        region_is_fresh(a0, live, base),
        obj_size::<T>() > 0,
        a1.has_thread(tid),
        a1.threads().remove(tid) == a0.threads().remove(tid),
        a1.all_regions() == a0.all_regions().push(base),
        a1.local_buffer(tid) == base + obj_size::<T>(),
        a1.local_limit(tid) == base + bump_size::<T>(),
        a1.local_list(tid) == a0.local_list(tid),
        a1.free_objs() == a0.free_objs(),
        a1.free_regions() == a0.free_regions(),
    ensures
        !live.contains(base),
        available_disjoint(a1, live.insert(base)),
{
    assert forall|t: u64|
        t != tid implies (#[trigger] a1.has_thread(t)) == a0.has_thread(t) && a1.local_list(t)
        == a0.local_list(t) && a1.local_buffer(t) == a0.local_buffer(t) && a1.local_limit(t)
        == a0.local_limit(t) by {
        assert(a1.threads().remove(tid).contains_key(t) == a1.threads().contains_key(t));
        assert(a0.threads().remove(tid).contains_key(t) == a0.threads().contains_key(t));
        if a1.has_thread(t) {
            assert(a1.threads().remove(tid)[t] == a1.threads()[t]);
            assert(a0.threads().remove(tid)[t] == a0.threads()[t]);
        }
    }
    let l0 = a0.local_list(tid);
    if !a0.has_thread(tid) {
        assert(l0 =~= Seq::<usize>::empty());
    }
    assert(base < base + bump_size::<T>()) by {
        assert(bump_size::<T>() > 0);
    }
    assert forall|x: usize, t: u64| #[trigger] in_list(a1, t, x) implies in_list(a0, t, x) by {}
    assert(!live.contains(base) && !in_pool(a0, base));
    assert forall|t: u64| !in_list(a0, t, base) && !in_reg(a0, t, base) by {}
    assert forall|j: int| !in_tail(a0, j, base) by {}
    assert forall|x: usize, t: u64| #[trigger] in_reg(a1, t, x) implies (t != tid && in_reg(
        a0,
        t,
        x,
    )) || (t == tid && x != base && !live.contains(x) && !in_pool(a0, x) && (forall|t2: u64|
        !in_list(a0, t2, x) && !in_reg(a0, t2, x)) && (forall|j: int| !in_tail(a0, j, x))) by {
        if t == tid {
            assert(base <= x < base + bump_size::<T>());
        }
    }
    assert forall|x: usize| #[trigger] in_pool(a1, x) implies in_pool(a0, x) by {}
    assert forall|x: usize, j: int| #[trigger] in_tail(a1, j, x) implies in_tail(a0, j, x) by {}
    assert(available_disjoint(a1, live.insert(base)));
}

/// A thread leaving hands its cache and region tail to the shared pools;
/// everything stays held once and apart from the live objects. The
/// requirements on `a1` are what `Allocator::thread_exit` ensures.
pub proof fn lemma_thread_exit_disjoint<T, const B: usize>(
    a0: Allocator<T, B>,
    a1: Allocator<T, B>,
    tid: u64,
    live: Set<usize>,
)
    requires
        available_disjoint(a0, live),
        !a1.has_thread(tid),
        a1.same_except(&a0, tid),
        a1.free_objs() == a0.free_objs() + a0.local_list(tid),
        a0.local_buffer(tid) != a0.local_limit(tid) ==> a1.free_regions() == a0.free_regions().push(
            (a0.local_buffer(tid), a0.local_limit(tid)),
        ),
        a0.local_buffer(tid) == a0.local_limit(tid) ==> a1.free_regions() == a0.free_regions(),
    ensures
        available_disjoint(a1, live),
{
    lemma_other_threads(a0, a1, tid);
    let l0 = a0.local_list(tid);
    let p0 = a0.free_objs();
    let g0 = a0.free_regions();
    let g1 = a1.free_regions();
    if !a0.has_thread(tid) {
        assert(l0 =~= Seq::<usize>::empty());
    }
    assert forall|x: usize| p0.contains(x) implies !l0.contains(x) by {
        if l0.contains(x) {
            assert(in_list(a0, tid, x));
            assert(in_pool(a0, x));
        }
    }
    lemma_join_no_dup(p0, l0);
    assert forall|x: usize| #[trigger] in_pool(a1, x) implies in_pool(a0, x) || in_list(a0, tid, x) by {
        lemma_concat_contains(p0, l0, x);
    }
    assert forall|x: usize, t: u64| #[trigger] in_list(a1, t, x) implies t != tid && in_list(a0, t, x) by {}
    assert forall|x: usize, t: u64| #[trigger] in_reg(a1, t, x) implies t != tid && in_reg(a0, t, x) by {}
    assert forall|x: usize, j: int| #[trigger] in_tail(a1, j, x) implies (j < g0.len() && in_tail(
        a0,
        j,
        x,
    )) || (j == g0.len() && in_reg(a0, tid, x)) by {
        if j < g0.len() {
            assert(g1[j] == g0[j]);
        }
    }
    assert(available_disjoint(a1, live));
}

/// `x` waits for reuse: in the shared pool or in some thread's cache.
pub open spec fn is_pooled<T, const B: usize>(a: Allocator<T, B>, x: usize) -> bool {
    in_pool(a, x) || exists|t: u64| #[trigger] in_list(a, t, x)
}

/// A freed object waits for reuse. The requirements on `a1` are what
/// `Allocator::free` ensures.
pub proof fn lemma_freed_is_pooled<T, const B: usize>(
    a0: Allocator<T, B>,
    a1: Allocator<T, B>,
    tid: u64,
    addr: usize,
)
    requires
        a1.has_thread(tid),
        a1.free_objs() + a1.local_list(tid) == a0.free_objs() + a0.local_list(tid).push(addr),
    ensures
        is_pooled(a1, addr),
{
    let s = a0.free_objs() + a0.local_list(tid).push(addr);
    assert(s[s.len() - 1] == addr);
    lemma_concat_contains(a1.free_objs(), a1.local_list(tid), addr);
    if a1.local_list(tid).contains(addr) {
        assert(in_list(a1, tid, addr));
    }
}

/// No object waiting for reuse is lost by `allocate`: it is the object
/// handed out, or it still waits. The requirements on `a1` are what
/// `Allocator::allocate` ensures.
pub proof fn lemma_allocate_keeps_pooled<T, const B: usize>(
    a0: Allocator<T, B>,
    a1: Allocator<T, B>,
    tid: u64,
    r: Option<usize>,
    x: usize,
)
    requires
        is_pooled(a0, x),
        a1.has_thread(tid),
        a1.same_except(&a0, tid),
        alloc_step::<T>(
            a0.local_list(tid),
            a0.local_buffer(tid) as int,
            a0.local_limit(tid) as int,
            a0.free_objs(),
            a0.free_obj_nodes(),
            a0.free_regions(),
            a1.local_list(tid),
            a1.local_buffer(tid) as int,
            a1.local_limit(tid) as int,
            a1.free_objs(),
            a1.free_obj_nodes(),
            a1.free_regions(),
            r,
        ),
    ensures
        r == Some(x) || is_pooled(a1, x),
{
    lemma_other_threads(a0, a1, tid);
    let l0 = a0.local_list(tid);
    let l1 = a1.local_list(tid);
    let p0 = a0.free_objs();
    let p1 = a1.free_objs();
    if !a0.has_thread(tid) {
        assert(l0 =~= Seq::<usize>::empty());
    }
    if in_pool(a0, x) {
        if l0.len() == 0 && !(a0.local_buffer(tid) + obj_size::<T>() <= a0.local_limit(tid))
            && last_nonempty(a0.free_obj_nodes()) >= 0 {
            let p = a0.free_obj_nodes()[last_nonempty(a0.free_obj_nodes())].last();
            lemma_concat_contains(p1, l1.push(p), x);
            if l1.push(p).contains(x) && x != p {
                let i = choose|i: int| 0 <= i < l1.push(p).len() && l1.push(p)[i] == x;
                assert(l1[i] == x);
                assert(in_list(a1, tid, x));
            }
        }
    } else {
        let t = choose|t: u64| #[trigger] in_list(a0, t, x);
        if t != tid {
            assert(in_list(a1, t, x));
        } else if l0.len() > 0 {
            assert(l0 =~= l1.push(l0.last()));
            let i = choose|i: int| 0 <= i < l0.len() && l0[i] == x;
            if i < l1.len() {
                assert(l1[i] == x);
                assert(in_list(a1, tid, x));
            }
        }
    }
}

/// Object `x` lies wholly inside one of the `regions` taken from the system.
pub open spec fn obj_in_region<T>(regions: Seq<usize>, x: int) -> bool {
    exists|i: int|
        0 <= i < regions.len() && #[trigger] regions[i] <= x && x + obj_size::<T>() <= regions[i]
            + bump_size::<T>()
}

/// The span `[b, m)` lies inside one of the `regions` taken from the system.
pub open spec fn span_in_region<T>(regions: Seq<usize>, b: int, m: int) -> bool {
    exists|i: int| 0 <= i < regions.len() && #[trigger] regions[i] <= b && m <= regions[i] + bump_size::<T>()
}

/// Every region base is non-null, and every object the allocator holds or
/// has handed out, every thread's unused region part and every returned
/// tail lies inside a region recorded in `all_regions`.
pub open spec fn within_regions<T, const B: usize>(a: Allocator<T, B>, live: Set<usize>) -> bool {
    let rs = a.all_regions();
    &&& forall|i: int| 0 <= i < rs.len() ==> #[trigger] rs[i] > 0
    &&& forall|x: usize| #[trigger] in_pool(a, x) ==> obj_in_region::<T>(rs, x as int)
    &&& forall|x: usize, t: u64| #[trigger] in_list(a, t, x) ==> obj_in_region::<T>(rs, x as int)
    &&& forall|x: usize| #[trigger] live.contains(x) ==> obj_in_region::<T>(rs, x as int)
    &&& forall|t: u64|
        a.has_thread(t) && #[trigger] a.local_buffer(t) < a.local_limit(t) ==> span_in_region::<T>(
            rs,
            a.local_buffer(t) as int,
            a.local_limit(t) as int,
        )
    &&& forall|j: int|
        0 <= j < a.free_regions().len() ==> span_in_region::<T>(
            rs,
            #[trigger] a.free_regions()[j].0 as int,
            a.free_regions()[j].1 as int,
        )
}

proof fn lemma_obj_from_span<T>(rs: Seq<usize>, b: int, m: int, x: int)
    requires
        span_in_region::<T>(rs, b, m),
        b <= x,
        x + obj_size::<T>() <= m,
        forall|i: int| 0 <= i < rs.len() ==> #[trigger] rs[i] > 0,
    ensures
        obj_in_region::<T>(rs, x),
        x > 0,
{
    let i = choose|i: int| 0 <= i < rs.len() && #[trigger] rs[i] <= b && m <= rs[i] + bump_size::<T>();
    assert(rs[i] <= x && x + obj_size::<T>() <= rs[i] + bump_size::<T>());
}

proof fn lemma_span_shrink<T>(rs: Seq<usize>, b: int, m: int, b2: int, m2: int)
    requires
        span_in_region::<T>(rs, b, m),
        b <= b2,
        m2 <= m,
    ensures
        span_in_region::<T>(rs, b2, m2),
{
    let i = choose|i: int| 0 <= i < rs.len() && #[trigger] rs[i] <= b && m <= rs[i] + bump_size::<T>();
    assert(rs[i] <= b2 && m2 <= rs[i] + bump_size::<T>());
}

proof fn lemma_obj_positive<T>(rs: Seq<usize>, x: int)
    requires
        obj_in_region::<T>(rs, x),
        forall|i: int| 0 <= i < rs.len() ==> #[trigger] rs[i] > 0,
    ensures
        x > 0,
{
    let i = choose|i: int|
        0 <= i < rs.len() && #[trigger] rs[i] <= x && x + obj_size::<T>() <= rs[i] + bump_size::<T>();
    assert(rs[i] > 0);
}

/// A fresh allocator has nothing outside its (no) regions.
pub proof fn lemma_new_within<T, const B: usize>(a: Allocator<T, B>)
    requires
        a.threads() == Map::<u64, crate::obj_alloc::TLAlloc<T, B>>::empty(),
        a.free_objs() == Seq::<usize>::empty(),
        a.free_regions() == Seq::<(usize, usize)>::empty(),
        a.all_regions() == Seq::<usize>::empty(),
    ensures
        within_regions(a, Set::<usize>::empty()),
{
}

/// `allocate` hands out a non-null object inside a recorded region, and
/// everything stays inside recorded regions. The requirements on `a1` are
/// what `Allocator::allocate` ensures.
pub proof fn lemma_allocate_in_regions<T, const B: usize>(
    a0: Allocator<T, B>,
    a1: Allocator<T, B>,
    tid: u64,
    r: Option<usize>,
    live: Set<usize>,
)
    requires
        a0.wf(),
        obj_size::<T>() > 0,
        within_regions(a0, live),
        a1.has_thread(tid),
        a1.same_except(&a0, tid),
        alloc_step::<T>(
            a0.local_list(tid),
            a0.local_buffer(tid) as int,
            a0.local_limit(tid) as int,
            a0.free_objs(),
            a0.free_obj_nodes(),
            a0.free_regions(),
            a1.local_list(tid),
            a1.local_buffer(tid) as int,
            a1.local_limit(tid) as int,
            a1.free_objs(),
            a1.free_obj_nodes(),
            a1.free_regions(),
            r,
        ),
    ensures
        r matches Some(p) ==> p > 0 && obj_in_region::<T>(a1.all_regions(), p as int)
            && within_regions(a1, live.insert(p)),
        r is None ==> within_regions(a1, live),
{
    lemma_other_threads(a0, a1, tid);
    a0.lemma_regions_ordered();
    let rs = a0.all_regions();
    let l0 = a0.local_list(tid);
    let l1 = a1.local_list(tid);
    let p0 = a0.free_objs();
    let p1 = a1.free_objs();
    let g0 = a0.free_regions();
    let g1 = a1.free_regions();
    let b0 = a0.local_buffer(tid);
    let m0 = a0.local_limit(tid);
    let room = b0 + obj_size::<T>() <= m0;
    let n0 = a0.free_obj_nodes();
    let k = last_nonempty(n0);
    let tt = last_roomy::<T>(g0);
    lemma_last_nonempty(n0);
    lemma_last_roomy::<T>(g0);
    if !a0.has_thread(tid) {
        assert(l0 =~= Seq::<usize>::empty());
    }
    assert forall|j: int| 0 <= j < g1.len() implies span_in_region::<T>(
        rs,
        #[trigger] g1[j].0 as int,
        g1[j].1 as int,
    ) by {
        assert(g1[j] == g0[j]);
        assert(span_in_region::<T>(rs, g0[j].0 as int, g0[j].1 as int));
    }
    if l0.len() > 0 {
        let p = l0.last();
        assert(l0 =~= l1.push(p));
        assert(l0[l0.len() - 1] == p);
        assert(in_list(a0, tid, p));
        assert forall|x: usize, t: u64| #[trigger] in_list(a1, t, x) implies in_list(a0, t, x) by {
            if t == tid {
                let i = choose|i: int| 0 <= i < l1.len() && l1[i] == x;
                assert(l0[i] == x);
            }
        }
        assert forall|x: usize| #[trigger] in_pool(a1, x) implies in_pool(a0, x) by {}
        lemma_obj_positive::<T>(rs, p as int);
        assert(within_regions(a1, live.insert(p)));
    } else if room {
        let p = b0;
        assert(b0 < m0);
        assert(a0.has_thread(tid));
        assert(span_in_region::<T>(rs, b0 as int, m0 as int));
        lemma_obj_from_span::<T>(rs, b0 as int, m0 as int, p as int);
        lemma_span_shrink::<T>(rs, b0 as int, m0 as int, b0 + obj_size::<T>(), m0 as int);
        assert forall|x: usize, t: u64| #[trigger] in_list(a1, t, x) implies in_list(a0, t, x) by {}
        assert forall|x: usize| #[trigger] in_pool(a1, x) implies in_pool(a0, x) by {}
        assert(within_regions(a1, live.insert(p)));
    } else if k >= 0 {
        let p = n0[k].last();
        assert(p0 == p1 + l1.push(p));
        assert(p0[p0.len() - 1] == p);
        assert(in_pool(a0, p));
        assert forall|x: usize| #[trigger] in_pool(a1, x) implies in_pool(a0, x) by {
            lemma_concat_contains(p1, l1.push(p), x);
        }
        assert forall|x: usize, t: u64| #[trigger] in_list(a1, t, x) implies (t != tid && in_list(
            a0,
            t,
            x,
        )) || (t == tid && in_pool(a0, x)) by {
            if t == tid {
                let i = choose|i: int| 0 <= i < l1.len() && l1[i] == x;
                assert(l1.push(p)[i] == x);
                lemma_concat_contains(p1, l1.push(p), x);
            }
        }
        lemma_obj_positive::<T>(rs, p as int);
        assert(within_regions(a1, live.insert(p)));
    } else if tt >= 0 {
        let p = g0[tt].0;
        assert(span_in_region::<T>(rs, g0[tt].0 as int, g0[tt].1 as int));
        lemma_obj_from_span::<T>(rs, g0[tt].0 as int, g0[tt].1 as int, p as int);
        lemma_span_shrink::<T>(
            rs,
            g0[tt].0 as int,
            g0[tt].1 as int,
            g0[tt].0 + obj_size::<T>(),
            g0[tt].1 as int,
        );
        assert forall|x: usize, t: u64| #[trigger] in_list(a1, t, x) implies in_list(a0, t, x) by {}
        assert forall|x: usize| #[trigger] in_pool(a1, x) implies in_pool(a0, x) by {}
        assert(within_regions(a1, live.insert(p)));
    } else {
        assert forall|x: usize, t: u64| #[trigger] in_list(a1, t, x) implies in_list(a0, t, x) by {
            if t == tid && !a0.has_thread(tid) {
                assert(l1 =~= Seq::<usize>::empty());
            }
        }
        assert forall|x: usize| #[trigger] in_pool(a1, x) implies in_pool(a0, x) by {}
        assert(within_regions(a1, live));
    }
}

/// Freeing live objects `freed` into thread `tid`'s cache keeps
/// everything inside recorded regions. The requirements on `a1` are what
/// `Allocator::free` (with one object) and a final `Allocator::unpin`
/// ensure.
pub proof fn lemma_free_all_in_regions<T, const B: usize>(
    a0: Allocator<T, B>,
    a1: Allocator<T, B>,
    tid: u64,
    freed: Seq<usize>,
    live: Set<usize>,
)
    requires
        within_regions(a0, live),
        forall|i: int| 0 <= i < freed.len() ==> live.contains(#[trigger] freed[i]),
        a1.has_thread(tid),
        a1.same_except(&a0, tid),
        a1.free_objs() + a1.local_list(tid) == a0.free_objs() + a0.local_list(tid) + freed,
        a1.local_buffer(tid) == a0.local_buffer(tid),
        a1.local_limit(tid) == a0.local_limit(tid),
        a1.free_regions() == a0.free_regions(),
    ensures
        within_regions(a1, live.difference(freed.to_set())),
{
    lemma_other_threads(a0, a1, tid);
    let l0 = a0.local_list(tid);
    let l1 = a1.local_list(tid);
    let p0 = a0.free_objs();
    let p1 = a1.free_objs();
    if !a0.has_thread(tid) {
        assert(l0 =~= Seq::<usize>::empty());
    }
    assert(p0 + l0 + freed =~= p0 + (l0 + freed));
    assert forall|x: usize| #[trigger] in_pool(a1, x) || in_list(a1, tid, x) implies in_pool(a0, x)
        || in_list(a0, tid, x) || live.contains(x) by {
        lemma_concat_contains(p1, l1, x);
        lemma_concat_contains(p0, l0 + freed, x);
        lemma_concat_contains(l0, freed, x);
        if freed.contains(x) {
            let i = choose|i: int| 0 <= i < freed.len() && freed[i] == x;
        }
    }
    assert forall|x: usize, t: u64| #[trigger] in_list(a1, t, x) implies (t != tid && in_list(
        a0,
        t,
        x,
    )) || (t == tid && (in_pool(a0, x) || in_list(a0, tid, x) || live.contains(x))) by {
        if t == tid {
            lemma_concat_contains(p1, l1, x);
            lemma_concat_contains(p0, l0 + freed, x);
            lemma_concat_contains(l0, freed, x);
            if freed.contains(x) {
                let i = choose|i: int| 0 <= i < freed.len() && freed[i] == x;
            }
        }
    }
    assert forall|x: usize| #[trigger] in_pool(a1, x) implies in_pool(a0, x) || in_list(a0, tid, x)
        || live.contains(x) by {
        assert(in_pool(a1, x) || in_list(a1, tid, x));
    }
    assert(within_regions(a1, live.difference(freed.to_set())));
}

/// Pinning and deferring keep everything inside recorded regions. The
/// requirements on `a1` are what `Allocator::pin`, `AllocGuard::defer_free`
/// and a non-final `Allocator::unpin` ensure.
pub proof fn lemma_bookkeeping_in_regions<T, const B: usize>(
    a0: Allocator<T, B>,
    a1: Allocator<T, B>,
    tid: u64,
    live: Set<usize>,
)
    requires
        within_regions(a0, live),
        a1.has_thread(tid),
        a1.same_except(&a0, tid),
        a1.local_list(tid) == a0.local_list(tid),
        a1.local_buffer(tid) == a0.local_buffer(tid),
        a1.local_limit(tid) == a0.local_limit(tid),
        a1.free_objs() == a0.free_objs(),
        a1.free_regions() == a0.free_regions(),
    ensures
        within_regions(a1, live),
{
    lemma_other_threads(a0, a1, tid);
    if !a0.has_thread(tid) {
        assert(a0.local_list(tid) =~= Seq::<usize>::empty());
    }
    assert forall|x: usize, t: u64| #[trigger] in_list(a1, t, x) implies in_list(a0, t, x) by {}
    assert forall|x: usize| #[trigger] in_pool(a1, x) implies in_pool(a0, x) by {}
}

/// A fresh non-null region keeps everything inside recorded regions, and
/// its first object, handed out, lies inside it. The requirements on `a1`
/// are what `Allocator::alloc_in_new_region` ensures.
pub proof fn lemma_new_region_in_regions<T, const B: usize>(
    a0: Allocator<T, B>,
    a1: Allocator<T, B>,
    tid: u64,
    base: usize,
    live: Set<usize>,
)
    requires
        within_regions(a0, live),
        base > 0,
        obj_size::<T>() > 0,
        a1.has_thread(tid),
        a1.threads().remove(tid) == a0.threads().remove(tid),
        a1.all_regions() == a0.all_regions().push(base),
        a1.local_buffer(tid) == base + obj_size::<T>(),
        a1.local_limit(tid) == base + bump_size::<T>(),
        a1.local_list(tid) == a0.local_list(tid),
        a1.free_objs() == a0.free_objs(),
        a1.free_regions() == a0.free_regions(),
    ensures
        obj_in_region::<T>(a1.all_regions(), base as int),
        within_regions(a1, live.insert(base)),
{
    let rs = a0.all_regions();
    let rs1 = a1.all_regions();
    assert forall|t: u64|
        t != tid implies (#[trigger] a1.has_thread(t)) == a0.has_thread(t) && a1.local_list(t)
        == a0.local_list(t) && a1.local_buffer(t) == a0.local_buffer(t) && a1.local_limit(t)
        == a0.local_limit(t) by {
        assert(a1.threads().remove(tid).contains_key(t) == a1.threads().contains_key(t));
        assert(a0.threads().remove(tid).contains_key(t) == a0.threads().contains_key(t));
        if a1.has_thread(t) {
            assert(a1.threads().remove(tid)[t] == a1.threads()[t]);
            assert(a0.threads().remove(tid)[t] == a0.threads()[t]);
        }
    }
    if !a0.has_thread(tid) {
        assert(a0.local_list(tid) =~= Seq::<usize>::empty());
    }
    assert forall|x: int| obj_in_region::<T>(rs, x) implies obj_in_region::<T>(rs1, x) by {
        let i = choose|i: int|
            0 <= i < rs.len() && #[trigger] rs[i] <= x && x + obj_size::<T>() <= rs[i] + bump_size::<T>();
        assert(rs1[i] == rs[i]);
    }
    assert forall|b: int, m: int| span_in_region::<T>(rs, b, m) implies span_in_region::<T>(rs1, b, m) by {
        let i = choose|i: int| 0 <= i < rs.len() && #[trigger] rs[i] <= b && m <= rs[i] + bump_size::<T>();
        assert(rs1[i] == rs[i]);
    }
    assert(rs1[rs.len() as int] == base);
    assert(obj_in_region::<T>(rs1, base as int));
    assert(span_in_region::<T>(rs1, base + obj_size::<T>(), base + bump_size::<T>()));
    assert forall|i: int| 0 <= i < rs1.len() implies #[trigger] rs1[i] > 0 by {
        if i < rs.len() {
            assert(rs1[i] == rs[i]);
        }
    }
    assert forall|x: usize, t: u64| #[trigger] in_list(a1, t, x) implies in_list(a0, t, x) by {}
    assert forall|x: usize| #[trigger] in_pool(a1, x) implies in_pool(a0, x) by {}
    assert(within_regions(a1, live.insert(base)));
}

/// A thread leaving keeps everything inside recorded regions. The
/// requirements on `a1` are what `Allocator::thread_exit` ensures.
pub proof fn lemma_thread_exit_in_regions<T, const B: usize>(
    a0: Allocator<T, B>,
    a1: Allocator<T, B>,
    tid: u64,
    live: Set<usize>,
)
    requires
        a0.wf(),
        within_regions(a0, live),
        !a1.has_thread(tid),
        a1.same_except(&a0, tid),
        a1.free_objs() == a0.free_objs() + a0.local_list(tid),
        a0.local_buffer(tid) != a0.local_limit(tid) ==> a1.free_regions() == a0.free_regions().push(
            (a0.local_buffer(tid), a0.local_limit(tid)),
        ),
        a0.local_buffer(tid) == a0.local_limit(tid) ==> a1.free_regions() == a0.free_regions(),
    ensures
        within_regions(a1, live),
{
    lemma_other_threads(a0, a1, tid);
    a0.lemma_regions_ordered();
    let rs = a0.all_regions();
    let l0 = a0.local_list(tid);
    let p0 = a0.free_objs();
    let g0 = a0.free_regions();
    let g1 = a1.free_regions();
    if !a0.has_thread(tid) {
        assert(l0 =~= Seq::<usize>::empty());
    }
    assert forall|x: usize| #[trigger] in_pool(a1, x) implies in_pool(a0, x) || in_list(a0, tid, x) by {
        lemma_concat_contains(p0, l0, x);
    }
    assert forall|x: usize, t: u64| #[trigger] in_list(a1, t, x) implies in_list(a0, t, x) by {}
    assert forall|j: int| 0 <= j < g1.len() implies span_in_region::<T>(
        rs,
        #[trigger] g1[j].0 as int,
        g1[j].1 as int,
    ) by {
        if j < g0.len() {
            assert(g1[j] == g0[j]);
            assert(span_in_region::<T>(rs, g0[j].0 as int, g0[j].1 as int));
        } else {
            assert(a0.local_buffer(tid) < a0.local_limit(tid));
            assert(a0.has_thread(tid));
        }
    }
    assert(within_regions(a1, live));
}

} // verus!

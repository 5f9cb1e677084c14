use objalloc::obj_alloc::{Allocator, SharedAlloc, TLAllocInner, REGION_OBJECTS};
use std::collections::HashSet;

const OBJ: usize = 16;
const BUMP: usize = REGION_OBJECTS * OBJ;

/// Stands in for the system allocator: distinct, far apart region bases.
struct Regions {
    next: usize,
    taken: Vec<usize>,
}

impl Regions {
    fn new() -> Self {
        Regions { next: 1 << 32, taken: Vec::new() }
    }
    fn take(&mut self) -> usize {
        let b = self.next;
        self.next += 2 * BUMP;
        self.taken.push(b);
        b
    }
}

fn take_obj<const B: usize>(a: &mut Allocator<u128, B>, tid: u64, regions: &mut Regions) -> usize {
    match a.allocate(tid) {
        Some(p) => p,
        None => a.alloc_in_new_region(tid, regions.take()),
    }
}

#[test]
fn single_thread_bump() {
    let mut a: Allocator<u128, 64> = Allocator::new();
    let mut regions = Regions::new();
    let mut got = Vec::new();
    for _ in 0..10_000 {
        got.push(take_obj(&mut a, 0, &mut regions));
    }
    for w in got.windows(2) {
        assert!(w[0] < w[1]);
    }
    assert!(regions.taken.len() <= (10_000 * OBJ + BUMP - 1) / BUMP + 1);
    assert_eq!(regions.taken.len(), 3);
    for &p in got.iter() {
        a.free(0, p);
    }
    let mut again = Vec::new();
    for _ in 0..10_000 {
        again.push(take_obj(&mut a, 0, &mut regions));
    }
    // the cache is used first, then the rest of the current region, then
    // the objects the cache donated to the shared pool
    // every 64 frees past the first 2048 donate one node of 64: 125 nodes
    let cached = 10_000 - 125 * 64;
    let mut want: Vec<usize> = got[10_000 - cached..].iter().rev().copied().collect();
    let tail_start = got[9_999] + OBJ;
    let tail_len = 3 * REGION_OBJECTS - 10_000;
    want.extend((0..tail_len).map(|i| tail_start + i * OBJ));
    assert_eq!(&again[..want.len()], &want[..]);
    let distinct: HashSet<usize> = again.iter().copied().collect();
    assert_eq!(distinct.len(), 10_000);
    let freed: HashSet<usize> = got.iter().copied().collect();
    assert!(again[want.len()..].iter().all(|p| freed.contains(p)));
    assert_eq!(regions.taken.len(), 3);
}

#[test]
fn addresses_distinct_across_threads() {
    let mut a: Allocator<u128, 64> = Allocator::new();
    let mut regions = Regions::new();
    let mut live = HashSet::new();
    for round in 0..3000u64 {
        let tid = round % 3;
        let p = take_obj(&mut a, tid, &mut regions);
        assert!(live.insert(p));
        if round % 4 == 0 {
            let q = *live.iter().next().unwrap();
            live.remove(&q);
            a.free((round + 1) % 3, q);
        }
    }
}

#[test]
fn handoff_recycles_through_shared_pool() {
    let mut a: Allocator<u128, 4> = Allocator::new();
    let mut regions = Regions::new();
    let mut produced = Vec::new();
    for _ in 0..REGION_OBJECTS {
        produced.push(take_obj(&mut a, 0, &mut regions));
    }
    assert_eq!(regions.taken.len(), 1);
    // thread 1 frees more than its cache holds: full nodes are donated
    for &p in produced.iter() {
        a.free(1, p);
    }
    // thread 0's region is used up, so it takes donated objects
    let p = take_obj(&mut a, 0, &mut regions);
    assert!(produced.contains(&p));
    assert_eq!(regions.taken.len(), 1);
}

#[test]
fn pin_defers_frees_until_last_unpin() {
    let mut a: Allocator<u128, 64> = Allocator::new();
    let mut regions = Regions::new();
    let ptrs: Vec<usize> = (0..100).map(|_| take_obj(&mut a, 0, &mut regions)).collect();
    let outer = a.pin(0);
    let inner = a.pin(0);
    assert_eq!(a.pin_depth(0), 2);
    for &p in ptrs.iter() {
        inner.defer_free(&mut a, p);
    }
    a.unpin(inner);
    // still pinned: nothing freed yet, so a new object comes from the region
    let fresh = outer.allocate(&mut a).unwrap();
    assert!(!ptrs.contains(&fresh));
    a.unpin(outer);
    assert_eq!(a.pin_depth(0), 0);
    let mut back: Vec<usize> = (0..100).map(|_| take_obj(&mut a, 0, &mut regions)).collect();
    back.sort();
    let mut want = ptrs.clone();
    want.sort();
    assert_eq!(back, want);
}

#[test]
fn thread_exit_returns_tail_and_cache() {
    let mut a: Allocator<u128, 64> = Allocator::new();
    let mut regions = Regions::new();
    let p = take_obj(&mut a, 5, &mut regions);
    let q = take_obj(&mut a, 5, &mut regions);
    a.free(5, p);
    a.thread_exit(5);
    // another thread first sees no room, then takes the donated object,
    // then the returned region tail
    let r1 = take_obj(&mut a, 6, &mut regions);
    assert_eq!(r1, p);
    let r2 = take_obj(&mut a, 6, &mut regions);
    assert_eq!(r2, q + OBJ);
    assert_eq!(regions.taken.len(), 1);
}

#[test]
fn teardown_releases_every_region_once() {
    let mut a: Allocator<u128, 64> = Allocator::new();
    let mut regions = Regions::new();
    for t in 0..4u64 {
        for _ in 0..5000 {
            take_obj(&mut a, t, &mut regions);
        }
    }
    let released = a.release_all();
    let mut want = regions.taken.clone();
    want.reverse();
    assert_eq!(released, want);
    assert!(a.release_all().is_empty());
}

#[test]
fn inner_state_steps() {
    let mut shared: SharedAlloc<u64, 8> = SharedAlloc::new();
    let mut t: TLAllocInner<u64, 8> = TLAllocInner::new(1000, 1016);
    assert_eq!(t.allocate(&mut shared), Some(1000));
    assert_eq!(t.allocate(&mut shared), Some(1008));
    assert_eq!(t.allocate(&mut shared), None);
    assert_eq!(t.alloc_in_new_region(&mut shared, 4096), 4096);
    t.free(&mut shared, 1000);
    assert_eq!(t.allocate(&mut shared), Some(1000));
    assert_eq!(shared.alloc_buffer(), None);
    assert_eq!(shared.add_buffer(1 << 20), (1 << 20, (1 << 20) + 4096 * 8));
}

#[test]
fn short_tail_is_returned_then_skipped() {
    let mut shared: SharedAlloc<u64, 8> = SharedAlloc::new();
    // a region with 4 bytes left: too small for one 8-byte object
    let mut t: TLAllocInner<u64, 8> = TLAllocInner::new(1000, 1004);
    assert_eq!(t.allocate(&mut shared), None);
    t.return_resources(&mut shared);
    assert_eq!(shared.alloc_buffer(), Some((1000, 1004)));
    t.return_resources(&mut shared);
    let mut u: TLAllocInner<u64, 8> = TLAllocInner::new(0, 0);
    // the short tail is dropped, and a usable one below it is taken
    let mut w: TLAllocInner<u64, 8> = TLAllocInner::new(2000, 2016);
    w.return_resources(&mut shared);
    let mut v: TLAllocInner<u64, 8> = TLAllocInner::new(3000, 3004);
    v.return_resources(&mut shared);
    assert_eq!(u.allocate(&mut shared), Some(2000));
    assert_eq!(u.allocate(&mut shared), Some(2008));
    assert_eq!(u.allocate(&mut shared), None);
}

#[test]
fn steal_makes_rest_of_node_the_cache() {
    let mut shared: SharedAlloc<u64, 2> = SharedAlloc::new();
    let mut donor: TLAllocInner<u64, 2> = TLAllocInner::new(0, 0);
    donor.free(&mut shared, 100);
    donor.free(&mut shared, 108);
    donor.free(&mut shared, 116);
    donor.return_resources(&mut shared);
    let mut thief: TLAllocInner<u64, 2> = TLAllocInner::new(0, 0);
    assert_eq!(thief.allocate(&mut shared), Some(116));
    assert_eq!(thief.allocate(&mut shared), Some(108));
    assert_eq!(thief.allocate(&mut shared), Some(100));
    assert_eq!(thief.allocate(&mut shared), None);
}

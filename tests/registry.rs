use objalloc::thread_local::{ThreadIdRegistry, ThreadLocal, ThreadMeta, FAST_THREADS};
use std::cell::Cell;

#[test]
fn ids_are_dense_and_recycled() {
    let mut reg = ThreadIdRegistry::new();
    assert_eq!(reg.acquire(), Some(0));
    assert_eq!(reg.acquire(), Some(1));
    assert_eq!(reg.acquire(), Some(2));
    reg.release(1);
    assert_eq!(reg.acquire(), Some(1));
    assert_eq!(reg.acquire(), Some(3));
}

#[test]
fn sequential_threads_reuse_one_id() {
    let mut reg = ThreadIdRegistry::new();
    let mut tl: ThreadLocal<u64> = ThreadLocal::new();
    let made = Cell::new(0u64);
    for _ in 0..2000 {
        let meta = ThreadMeta::new(&mut reg).unwrap();
        let id = meta.get_hash();
        assert_eq!(id, 0);
        tl.get_or(Some(id), || {
            made.set(made.get() + 1);
            7
        });
        meta.release(&mut reg);
    }
    assert_eq!(made.get(), 1);
}

#[test]
fn get_or_runs_new_once_per_id() {
    let mut tl: ThreadLocal<u64> = ThreadLocal::new();
    let made = Cell::new(0u64);
    let ids = [0u64, 3, (FAST_THREADS as u64) - 1, FAST_THREADS as u64, 100_000];
    for round in 0..3u64 {
        for &id in ids.iter() {
            let v = *tl
                .get_or(Some(id), || {
                    made.set(made.get() + 1);
                    id * 2 + round
                })
                .unwrap();
            assert_eq!(v, id * 2);
        }
    }
    assert_eq!(made.get(), ids.len() as u64);
    assert_eq!(tl.get(100_000), Some(&200_000));
    assert_eq!(tl.get(5), None);
}

#[test]
fn get_or_without_id_fails_cleanly() {
    let mut tl: ThreadLocal<u64> = ThreadLocal::new();
    let made = Cell::new(0u64);
    assert!(tl
        .get_or(None, || {
            made.set(1);
            1
        })
        .is_none());
    assert_eq!(made.get(), 0);
}

#[test]
fn overflow_ids_each_get_one_value() {
    let mut tl: ThreadLocal<u64> = ThreadLocal::new();
    let made = Cell::new(0u64);
    let n = FAST_THREADS as u64 + 50;
    for id in 0..n {
        tl.get_or(Some(id), || {
            made.set(made.get() + 1);
            id
        });
    }
    assert_eq!(made.get(), n);
    assert_eq!(tl.take(n - 1), Some(n - 1));
    assert_eq!(tl.take(n - 1), None);
    tl.set(3, 33);
    assert_eq!(tl.get(3), Some(&33));
}

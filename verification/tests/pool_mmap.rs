//! Pieces of a fixed region.

use mneme::pool_mmap::MmapPool;

#[test]
fn alloc_write_read_roundtrip() {
    let mut pool = MmapPool::new(4 * 1024 * 1024).expect("pool alloc");
    let data = b"hello cross-platform pool";
    let alloc = pool.allocate(data.len()).expect("bump alloc");
    pool.write(&alloc, data);
    assert_eq!(pool.read(&alloc), data);
}

#[test]
fn alloc_exhaustion_returns_none() {
    let mut pool = MmapPool::new(64).expect("tiny pool");
    let _a = pool.allocate(64).expect("first alloc");
    assert!(pool.allocate(1).is_none());
}

#[test]
fn free_hint_does_not_panic() {
    let mut pool = MmapPool::new(4096).expect("pool");
    let alloc = pool.allocate(128).expect("alloc");
    pool.free_hint(&alloc);
}

#[test]
fn pieces_are_aligned_and_apart() {
    let mut pool = MmapPool::new(64).unwrap();
    let a = pool.allocate(3).unwrap();
    let b = pool.allocate(5).unwrap();
    assert_eq!((a.offset, b.offset, pool.used(), pool.capacity()), (0, 8, 16, 64));
    pool.write(&a, b"abc");
    pool.write(&b, b"12345");
    assert_eq!(pool.read(&a), b"abc");
    assert_eq!(pool.read(&b), b"12345");
}

#[test]
fn empty_regions_are_refused() {
    assert!(MmapPool::new(0).is_err());
}

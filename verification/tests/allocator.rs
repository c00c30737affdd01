use mcscan::entry_alloc::EntryAllocator;

#[test]
fn exactly_capacity_allocations_succeed() {
    let mut pool: EntryAllocator<u32> = EntryAllocator::new(4);
    let mut seen = Vec::new();
    for v in 0..4u32 {
        let (idx, stored) = pool.allocate(v).expect("a free slot must be left");
        assert!(idx < 4, "index {} out of range", idx);
        assert_eq!(*stored, v);
        assert!(!seen.contains(&idx), "index {} handed out twice", idx);
        seen.push(idx);
    }
    assert!(pool.allocate(99).is_none(), "allocation past capacity must fail");
    assert!(pool.is_full());
}

#[test]
fn release_makes_index_reusable() {
    let mut pool: EntryAllocator<&str> = EntryAllocator::new(2);
    let (a, _) = pool.allocate("first").unwrap();
    let (_b, _) = pool.allocate("second").unwrap();
    assert!(pool.is_full());
    assert_eq!(pool.dealloc(a), Some("first"));
    let (c, stored) = pool.allocate("third").unwrap();
    assert_eq!(c, a, "a released index is handed out again");
    assert_eq!(*stored, "third");
}

#[test]
fn dealloc_of_free_slot_releases_nothing() {
    let mut pool: EntryAllocator<u8> = EntryAllocator::new(3);
    assert_eq!(pool.dealloc(1), None);
    let (idx, _) = pool.allocate(7).unwrap();
    assert_eq!(pool.dealloc(idx), Some(7));
    assert_eq!(pool.dealloc(idx), None, "second release is a no-op");
}

#[test]
fn occupied_count_is_capacity_minus_free_count() {
    let mut pool: EntryAllocator<u64> = EntryAllocator::new(5);
    assert_eq!(pool.size(), 0);
    assert!(pool.is_empty());
    let mut held = Vec::new();
    for v in 0..5u64 {
        let (idx, _) = pool.allocate(v).unwrap();
        held.push(idx);
        assert_eq!(pool.size(), (v + 1) as usize);
    }
    assert!(pool.is_full());
    assert!(!pool.is_empty());
    let mut left = 5;
    for idx in held {
        assert!(pool.dealloc(idx).is_some());
        left -= 1;
        assert_eq!(pool.size(), left);
    }
    assert!(pool.is_empty());
}

#[test]
fn zero_capacity_pool_is_always_full() {
    let mut pool: EntryAllocator<u8> = EntryAllocator::new(0);
    assert!(pool.is_full());
    assert!(pool.is_empty());
    assert!(pool.allocate(1).is_none());
    assert_eq!(pool.size(), 0);
}

use slabfs::slab::{SlabAllocator, SlabError};

#[test]
fn outstanding_tracks_allocations_and_releases() {
    let mut a: SlabAllocator<u64> = SlabAllocator::new(4);
    assert_eq!(a.stats(), (0, 4));

    let h1 = a.allocate(10);
    assert_eq!(a.stats(), (1, 4));
    let h2 = a.allocate(20);
    assert_eq!(a.stats(), (2, 4));
    let h3 = a.allocate(30);
    assert_eq!(a.stats(), (3, 4));

    assert_eq!(a.free(h2), Ok(()));
    assert_eq!(a.stats(), (2, 4));
    assert_eq!(a.free(h1), Ok(()));
    assert_eq!(a.stats(), (1, 4));

    let h4 = a.allocate(40);
    assert_eq!(a.stats(), (2, 4));

    assert_eq!(a.free(h3), Ok(()));
    assert_eq!(a.free(h4), Ok(()));
    assert_eq!(a.stats(), (0, 4));
}

#[test]
fn shared_owners_release_once_per_slot() {
    let mut a: SlabAllocator<u64> = SlabAllocator::new(2);
    let h1 = a.allocate(7);
    let h2 = h1.duplicate(&mut a);
    let h3 = h2.duplicate(&mut a);
    // three owners, one slot outstanding
    assert_eq!(a.stats(), (1, 2));
    assert_eq!(a.free(h1), Ok(()));
    assert_eq!(a.stats(), (1, 2));
    assert_eq!(a.free(h2), Ok(()));
    assert_eq!(a.stats(), (1, 2));
    assert_eq!(a.free(h3), Ok(()));
    assert_eq!(a.stats(), (0, 2));
}

#[test]
fn freelist_is_lifo() {
    let mut a: SlabAllocator<u64> = SlabAllocator::new(4);
    let ha = a.allocate(1);
    let hb = a.allocate(2);
    let _hc = a.allocate(3);
    let slot_a = ha.slot_index();
    let slot_b = hb.slot_index();

    assert_eq!(a.free(ha), Ok(()));
    assert_eq!(a.free(hb), Ok(()));

    // slot released last comes back first
    let hd = a.allocate(4);
    assert_eq!(hd.slot_index(), slot_b);
    let he = a.allocate(5);
    assert_eq!(he.slot_index(), slot_a);
}

#[test]
fn growth_doubles_capacity() {
    let mut a: SlabAllocator<u64> = SlabAllocator::new(4);
    let mut hs = Vec::new();
    for v in 0..4 {
        hs.push(a.allocate(v));
    }
    assert_eq!(a.stats(), (4, 4));
    assert_eq!(a.chunk_count(), 1);

    // the fifth allocation triggers exactly one growth event
    hs.push(a.allocate(4));
    assert_eq!(a.chunk_count(), 2);
    let (outstanding, capacity) = a.stats();
    assert_eq!(outstanding, 5);
    assert!(capacity >= 8);
    assert_eq!(capacity, 8);
}

#[test]
fn overfree_is_detected() {
    let mut a: SlabAllocator<u64> = SlabAllocator::new(4);
    let h = a.allocate(9);

    // a handle of a foreign arena releases nothing here
    let mut idle: SlabAllocator<u64> = SlabAllocator::new(4);
    assert_eq!(idle.stats(), (0, 4));
    assert_eq!(idle.free(h), Err(SlabError::OverFree));
    assert_eq!(idle.stats(), (0, 4));
}

#[test]
fn out_of_range_handle_is_refused() {
    let mut big: SlabAllocator<u64> = SlabAllocator::new(2);
    let h0 = big.allocate(1);
    let h1 = big.allocate(2);
    assert_eq!(h1.slot_index(), 1);

    // the slot the handle names lies outside this arena
    let mut tiny: SlabAllocator<u64> = SlabAllocator::new(1);
    assert_eq!(tiny.free(h1), Err(SlabError::OverFree));
    assert_eq!(tiny.stats(), (0, 1));

    assert_eq!(big.free(h0), Ok(()));
}

#[test]
fn dirty_allocation_exposes_stale_value() {
    let mut a: SlabAllocator<u64> = SlabAllocator::new(2);
    let h = a.allocate(42);
    let slot = h.slot_index();
    assert_eq!(a.free(h), Ok(()));

    // no zeroing happened on release
    let h2 = a.dirty_alloc();
    assert_eq!(h2.slot_index(), slot);
    assert!(h2.is_written(&a));
    assert_eq!(*h2.borrow(&a), 42);
}

#[test]
fn dirty_allocation_of_fresh_slot_holds_no_value() {
    let mut a: SlabAllocator<u64> = SlabAllocator::new(1);
    let h = a.dirty_alloc();
    assert!(h.is_valid(&a));
    assert!(!h.is_written(&a));
}

#[test]
fn borrow_mut_is_seen_by_every_owner() {
    let mut a: SlabAllocator<i32> = SlabAllocator::new(2);
    let h1 = a.allocate(5);
    let h2 = h1.duplicate(&mut a);
    assert_eq!(*h1.borrow(&a), 5);
    {
        let m = h1.borrow_mut(&mut a);
        *m = 9;
    }
    assert_eq!(*h1.borrow(&a), 9);
    assert_eq!(*h2.borrow(&a), 9);
    assert_eq!(a.free(h1), Ok(()));
    assert_eq!(*h2.borrow(&a), 9);
    assert_eq!(a.free(h2), Ok(()));
}

#[test]
fn example_scenario() {
    let mut a: SlabAllocator<i32> = SlabAllocator::new(2);
    let h1 = a.allocate(1);
    let h2 = a.allocate(2);
    assert_eq!(a.stats(), (2, 2));

    let h3 = a.allocate(3);
    assert_eq!(a.stats(), (3, 4));

    let h1_slot = h1.slot_index();
    assert_eq!(a.free(h1), Ok(()));
    assert_eq!(a.stats(), (2, 4));

    let h4 = a.allocate(4);
    assert_eq!(h4.slot_index(), h1_slot);
    assert_eq!(a.stats(), (3, 4));

    assert_eq!(*h2.borrow(&a), 2);
    assert_eq!(*h3.borrow(&a), 3);
    assert_eq!(*h4.borrow(&a), 4);
}

#[test]
fn handle_validity_is_checked_per_arena() {
    let mut a: SlabAllocator<u64> = SlabAllocator::new(2);
    let h = a.allocate(3);
    assert!(h.is_valid(&a));
    let other: SlabAllocator<u64> = SlabAllocator::new(2);
    assert!(!h.is_valid(&other));
    assert_eq!(a.free(h), Ok(()));
}

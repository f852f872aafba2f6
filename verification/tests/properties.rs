use arena_alloc::state::{Allocator, ALIGN, HEADER_SIZE};

#[test]
fn alignment_of_every_successful_allocation() {
    let mut a = Allocator::init(4096);
    let sizes = [1usize, 7, 16, 33, 100, 255];
    for s in sizes.iter() {
        let p = a.allocate(*s);
        assert!(p.is_some());
        assert_eq!(p.unwrap() % ALIGN, 0);
    }
}

#[test]
fn disjointness_of_live_allocations() {
    let mut a = Allocator::init(4096);
    let p1 = a.allocate(100).unwrap();
    let p2 = a.allocate(100).unwrap();
    let p3 = a.allocate(100).unwrap();
    // requested ranges never overlap
    assert!(p1 + 100 <= p2 || p2 + 100 <= p1);
    assert!(p1 + 100 <= p3 || p3 + 100 <= p1);
    assert!(p2 + 100 <= p3 || p3 + 100 <= p2);
}

#[test]
fn zero_size_alloc_mutates_nothing() {
    let mut a = Allocator::init(2048);
    let mut b = Allocator::init(2048);
    assert!(a.allocate(0).is_none());
    // the zero-size call left the state as it was: later calls agree
    let pa = a.allocate(100);
    let pb = b.allocate(100);
    assert_eq!(pa, pb);
    let da = a.dump_state();
    let db = b.dump_state();
    assert_eq!(da.free_list.len(), db.free_list.len());
    assert_eq!(da.allocated, db.allocated);
}

#[test]
fn capacity_bound_always_fails() {
    let mut a = Allocator::init(1024);
    assert!(a.allocate(1024 + 1).is_none());
    assert!(a.allocate(usize::MAX - 100).is_none());
}

#[test]
fn round_trip_same_size_succeeds() {
    let mut a = Allocator::init(1024);
    let p = a.allocate(300);
    assert!(p.is_some());
    a.free(p);
    let p2 = a.allocate(300);
    assert!(p2.is_some());
}

#[test]
fn coalescing_adjacent_blocks_either_order() {
    // three allocations carve the front of the arena; freeing two adjacent
    // ones leaves a single free node spanning their combined range
    let mut a = Allocator::init(1024);
    let p1 = a.allocate(100).unwrap();
    let p2 = a.allocate(100).unwrap();
    let _p3 = a.allocate(100).unwrap();
    a.free(Some(p1));
    a.free(Some(p2));
    let d = a.dump_state();
    let merged: Vec<_> = d.free_list.iter().filter(|e| e.address == p1 - HEADER_SIZE).collect();
    assert_eq!(merged.len(), 1);
    assert_eq!(merged[0].size, 144 + 144);

    // and in the other order
    let mut b = Allocator::init(1024);
    let q1 = b.allocate(100).unwrap();
    let q2 = b.allocate(100).unwrap();
    let _q3 = b.allocate(100).unwrap();
    b.free(Some(q2));
    b.free(Some(q1));
    let db = b.dump_state();
    let merged_b: Vec<_> = db.free_list.iter().filter(|e| e.address == q1 - HEADER_SIZE).collect();
    assert_eq!(merged_b.len(), 1);
    assert_eq!(merged_b[0].size, 288);
}

#[test]
fn shrink_preserves_address_and_bytes() {
    let mut a = Allocator::init(2048);
    let p = a.allocate(200).unwrap();
    for i in 0..200 {
        a.write_byte(p + i, (i % 251) as u8);
    }
    let p2 = a.realloc(Some(p), 50);
    assert_eq!(p2, Some(p));
    for i in 0..50 {
        assert_eq!(a.read_byte(p + i), (i % 251) as u8);
    }
}

#[test]
fn grow_preserves_content() {
    let mut a = Allocator::init(4096);
    let p = a.allocate(64).unwrap();
    let blocker = a.allocate(64);
    assert!(blocker.is_some());
    for i in 0..64 {
        a.write_byte(p + i, (17 + i) as u8);
    }
    // the successor is allocated, so this growth must relocate and copy
    let p2 = a.realloc(Some(p), 600).unwrap();
    assert_ne!(p2, p);
    for i in 0..64 {
        assert_eq!(a.read_byte(p2 + i), (17 + i) as u8);
    }
}

#[test]
fn failed_grow_preserves_original() {
    // an arena too small to serve the growth by any path
    let mut a = Allocator::init(256);
    let p = a.allocate(100).unwrap();
    for i in 0..100 {
        a.write_byte(p + i, 0x5A);
    }
    let r = a.realloc(Some(p), 4000);
    assert!(r.is_none());
    for i in 0..100 {
        assert_eq!(a.read_byte(p + i), 0x5A);
    }
    // nothing was mutated: the free neighbor is still on the free list,
    // and the block keeps its original size
    let d = a.dump_state();
    assert_eq!(d.free_list.len(), 1);
    assert_eq!(d.free_list[0].address, 144);
    assert_eq!(d.free_list[0].size, 112);
    assert_eq!(d.allocated, vec![0]);
    // the block is still live: it can be freed and reused
    a.free(Some(p));
    assert!(a.allocate(100).is_some());
}

#[test]
fn three_records_scenario() {
    // arena of 1024 bytes; a small allocation fits, an oversized one fails,
    // and freeing makes the bytes available again
    let mut a = Allocator::init(1024);
    let p1 = a.allocate(100);
    assert!(p1.is_some());
    let p2 = a.allocate(2000);
    assert!(p2.is_none());
    a.free(p1);
    let p3 = a.allocate(100);
    assert!(p3.is_some());
}

#[test]
fn registry_tracks_live_allocations() {
    let mut a = Allocator::init(2048);
    let p1 = a.allocate(100).unwrap();
    let p2 = a.allocate(100).unwrap();
    let d = a.dump_state();
    assert_eq!(d.allocated.len(), 2);
    assert!(d.allocated.contains(&(p1 - HEADER_SIZE)));
    assert!(d.allocated.contains(&(p2 - HEADER_SIZE)));
    a.free(Some(p1));
    let d2 = a.dump_state();
    assert_eq!(d2.allocated.len(), 1);
    assert!(!d2.allocated.contains(&(p1 - HEADER_SIZE)));
}

#[test]
fn exact_split_arithmetic() {
    // needed = align_up(100 + 32, 16) = 144, so payloads start 144 apart
    let mut a = Allocator::init(1024);
    let p1 = a.allocate(100).unwrap();
    let p2 = a.allocate(100).unwrap();
    assert_eq!(p1, HEADER_SIZE);
    assert_eq!(p2, p1 + 144);
}

#[test]
fn align_up_exact_values() {
    assert_eq!(arena_alloc::align_up::align_up(0, 16), 0);
    assert_eq!(arena_alloc::align_up::align_up(1, 16), 16);
    assert_eq!(arena_alloc::align_up::align_up(16, 16), 16);
    assert_eq!(arena_alloc::align_up::align_up(17, 16), 32);
    assert_eq!(arena_alloc::align_up::align_up(100, 8), 104);
    assert_eq!(arena_alloc::align_up::align_up(5, 1), 5);
}

#[test]
fn consume_whole_block_when_remainder_too_small() {
    // carve the arena so a free block of exactly 144 bytes remains, then
    // ask for 112 payload bytes (needed 144): no split is possible and the
    // whole block is handed out
    let mut a = Allocator::init(1024);
    let p1 = a.allocate(100).unwrap();
    let _p2 = a.allocate(100).unwrap();
    a.free(Some(p1));
    let p3 = a.allocate(112).unwrap();
    assert_eq!(p3, p1);
    // the free list no longer holds that block
    let d = a.dump_state();
    for e in d.free_list.iter() {
        assert_ne!(e.address, p3 - HEADER_SIZE);
    }
}

use arena_alloc::state::{Allocator, ALIGN, ARENA_SIZE, HEADER_SIZE};

fn find_block_in_free_list(a: &Allocator, ptr: usize) -> bool {
    let d = a.dump_state();
    let off = ptr - HEADER_SIZE;
    let mut found = false;
    for e in d.free_list.iter() {
        if e.address == off {
            found = true;
        }
    }
    found
}

#[test]
fn test_arena_allocator() {
    let a = Allocator::init(ARENA_SIZE);
    assert!(a.capacity == ARENA_SIZE, "Arena should be initialized");
    let d = a.dump_state();
    assert!(!d.free_list.is_empty());
    assert!(d.free_list[0].free);
    let addr = d.free_list[0].address;
    assert!(addr % ALIGN == 0, "Block should be aligned");
}

#[test]
fn alloc_test_alloc_return_aligned_pointer() {
    let mut a = Allocator::init(ARENA_SIZE);
    let ptr = a.allocate(64);
    assert!(ptr.is_some(), "Allocation should not return null");
    let addr = ptr.unwrap();
    assert!(addr % ALIGN == 0, "Allocated pointer should be aligned");
}

#[test]
fn alloc_test_alloc_zero_size() {
    let mut a = Allocator::init(ARENA_SIZE);
    let ptr = a.allocate(0);
    assert!(ptr.is_none(), "Allocation of zero size should return null");
}

#[test]
fn alloc_test_alloc_multiple() {
    let mut a = Allocator::init(ARENA_SIZE);
    let ptr1 = a.allocate(128);
    let ptr2 = a.allocate(256);
    assert_ne!(ptr1, ptr2, "Allocations should return different pointers");
    assert!(ptr1.is_some(), "First allocation should not return null");
    assert!(ptr2.is_some(), "Second allocation should not return null.");
}

#[test]
fn alloc_test_alloc_exceeding_size() {
    let mut a = Allocator::init(ARENA_SIZE);
    let ptr = a.allocate(ARENA_SIZE + 1);
    assert!(ptr.is_none(), "Allocation exceeding arena size should return null");
}

#[test]
fn free_test_free() {
    let mut a = Allocator::init(ARENA_SIZE);
    for i in 0..5 {
        println!("Test free: iteration {}", i);
        let p1 = a.allocate(128);
        let p2 = a.allocate(256);
        let _p3 = a.allocate(512);
        let p4 = a.allocate(1024);

        assert!(a.head.is_some(), "Free list should not be empty before freeing");

        a.free(p1);
        a.free(p2);
        a.free(p4);
        assert!(
            find_block_in_free_list(&a, p1.unwrap()),
            "freed block should be in free list {:?}",
            p1
        );
        assert!(
            find_block_in_free_list(&a, p4.unwrap()),
            "freed block should be in free list {:?}",
            p4
        );
    }
}

#[test]
fn lib_test_alloc_return_aligned_pointer() {
    let mut a = Allocator::init(ARENA_SIZE);
    let ptr = a.allocate(64);
    assert!(ptr.is_some(), "Allocation should not return null");
    let addr = ptr.unwrap();
    assert!(addr % ALIGN == 0, "Allocated pointer should be aligned");
}

#[test]
fn lib_test_alloc_zero_size() {
    let mut a = Allocator::init(ARENA_SIZE);
    let ptr = a.allocate(0);
    assert!(ptr.is_none(), "Allocation of zero size should return null");
}

#[test]
fn lib_test_alloc_multiple() {
    let mut a = Allocator::init(ARENA_SIZE);
    let ptr1 = a.allocate(128);
    let ptr2 = a.allocate(256);
    assert_ne!(ptr1, ptr2, "Allocations should return different pointers");
    assert!(ptr1.is_some(), "First allocation should not return null");
    assert!(ptr2.is_some(), "Second allocation should not return null.");
}

#[test]
fn lib_test_alloc_exceeding_size() {
    let mut a = Allocator::init(ARENA_SIZE);
    let ptr = a.allocate(ARENA_SIZE + 1);
    assert!(ptr.is_none(), "Allocation exceeding arena size should return null");
}

#[test]
fn lib_test_free() {
    let mut a = Allocator::init(ARENA_SIZE);
    for i in 0..5 {
        println!("Test free: iteration {}", i);
        let p1 = a.allocate(128);
        let p2 = a.allocate(256);
        let _p3 = a.allocate(512);
        let p4 = a.allocate(1024);

        assert!(a.head.is_some(), "Free list should not be empty before freeing");

        a.free(p1);
        a.free(p2);
        a.free(p4);
        assert!(
            find_block_in_free_list(&a, p1.unwrap()),
            "freed block should be in free list {:?}",
            p1
        );
        assert!(
            find_block_in_free_list(&a, p4.unwrap()),
            "freed block should be in free list {:?}",
            p4
        );
    }
}

#[test]
fn test_realloc() {
    let mut a = Allocator::init(ARENA_SIZE);
    let ptr = a.allocate(64);
    assert!(ptr.is_some(), "Allocation failed");

    let new_ptr = a.realloc(ptr, 128);
    assert!(new_ptr.is_some(), "Reallocation failed");
    assert_eq!(new_ptr, ptr, "Reallocation did not return the same pointer");

    a.free(new_ptr);
}

#[test]
fn test_realloc_zero_size() {
    let mut a = Allocator::init(ARENA_SIZE);
    let ptr = a.allocate(64);
    assert!(ptr.is_some(), "Allocation failed");

    let new_ptr = a.realloc(ptr, 0);
    assert!(new_ptr.is_none(), "Reallocation to zero size did not return null");
}

#[test]
fn grow_shrink_realloc() {
    let mut a = Allocator::init(ARENA_SIZE);
    let ptr = a.allocate(128);
    assert!(ptr.is_some(), "Allocation failed");
    let p = ptr.unwrap();
    for i in 0..128 {
        a.write_byte(p + i, 0xAA);
    }

    let new_ptr = a.realloc(ptr, 512);
    assert!(new_ptr.is_some(), "Reallocation failed");
    assert_eq!(a.read_byte(new_ptr.unwrap()), 0xAA);
    let p3 = a.realloc(new_ptr, 64);
    assert_eq!(a.read_byte(p3.unwrap()), 0xAA);

    a.free(p3);
}

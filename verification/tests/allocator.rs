use syskrnl::allocator::linked_list::{FreeBlock, LinkedListAllocator};
use syskrnl::allocator::{align_up, padding, Dummy, Locked};

fn block(start: usize, size: usize) -> FreeBlock {
    FreeBlock { start, size }
}

/// Three free blocks of 64, 128 and 32 bytes, in that search order.
fn three_blocks() -> LinkedListAllocator {
    let mut a = LinkedListAllocator::new();
    a.init(0x1000, 64);
    a.grow(0x2000, 128);
    a.grow(0x3000, 32);
    a
}

#[test]
fn align_up_rounds_to_next_multiple() {
    assert_eq!(align_up(0x1001, 0x1000), 0x2000);
    assert_eq!(align_up(0x1000, 0x1000), 0x1000);
    assert_eq!(align_up(0, 8), 0);
    assert_eq!(align_up(5, 1), 5);
    assert_eq!(align_up(13, 4), 16);
    assert_eq!(align_up(usize::MAX - 7, 8), usize::MAX - 7);
}

#[test]
fn padding_is_distance_to_next_multiple() {
    assert_eq!(padding(0x1001, 16), 15);
    assert_eq!(padding(0x1000, 16), 0);
    assert_eq!(padding(7, 1), 0);
    assert_eq!(padding(usize::MAX, 4096), 1);
}

#[test]
fn new_allocator_has_no_memory() {
    let mut a = LinkedListAllocator::new();
    assert_eq!(a.free_space(), 0);
    assert!(a.free_blocks().is_empty());
    assert_eq!(a.allocate(1, 1), None);
}

#[test]
fn init_makes_one_free_block() {
    let mut a = LinkedListAllocator::new();
    a.init(0x4000, 0x1000);
    assert_eq!(a.free_blocks(), vec![block(0x4000, 0x1000)]);
    assert_eq!(a.free_space(), 0x1000);
}

#[test]
fn init_with_empty_region_leaves_list_empty() {
    let mut a = LinkedListAllocator::new();
    a.init(0x4000, 0);
    assert!(a.free_blocks().is_empty());
    assert_eq!(a.free_space(), 0);
}

#[test]
fn round_trip_leaves_free_space_unchanged() {
    let sizes = [1usize, 7, 64, 100, 1000, 4096];
    let aligns = [1usize, 2, 8, 64, 4096];
    for &size in sizes.iter() {
        for &align in aligns.iter() {
            let mut a = LinkedListAllocator::new();
            a.init(0x10010, 0x10000);
            let before = a.free_space();
            let blocks_before = a.free_blocks();
            let addr = a.allocate(size, align).unwrap();
            assert_eq!(addr % align, 0);
            assert_eq!(a.free_space(), before - size);
            assert!(a.is_unused(addr, size));
            a.dealloc(addr, size);
            assert_eq!(a.free_space(), before);
            assert_eq!(a.free_blocks(), blocks_before);
        }
    }
}

#[test]
fn first_fit_takes_first_block_that_is_large_enough() {
    let mut a = three_blocks();
    assert_eq!(
        a.free_blocks(),
        vec![block(0x1000, 64), block(0x2000, 128), block(0x3000, 32)]
    );
    let addr = a.allocate(100, 1);
    assert_eq!(addr, Some(0x2000));
    assert_eq!(
        a.free_blocks(),
        vec![block(0x1000, 64), block(0x2000 + 100, 28), block(0x3000, 32)]
    );
    assert_eq!(a.free_space(), 64 + 28 + 32);
}

#[test]
fn first_fit_prefers_earlier_block_over_tighter_one() {
    let mut a = three_blocks();
    assert_eq!(a.allocate(32, 1), Some(0x1000));
    assert_eq!(
        a.free_blocks(),
        vec![block(0x1020, 32), block(0x2000, 128), block(0x3000, 32)]
    );
}

#[test]
fn exact_fit_removes_block() {
    let mut a = three_blocks();
    assert_eq!(a.allocate(128, 1), Some(0x2000));
    assert_eq!(a.free_blocks(), vec![block(0x1000, 64), block(0x3000, 32)]);
}

#[test]
fn request_larger_than_every_block_fails() {
    let mut a = three_blocks();
    let before = a.free_blocks();
    assert_eq!(a.allocate(129, 1), None);
    assert_eq!(a.free_blocks(), before);
    assert_eq!(a.free_space(), 64 + 128 + 32);
}

#[test]
fn growth_adds_exactly_its_size() {
    let mut a = LinkedListAllocator::new();
    a.init(0x1000, 0x1000);
    let before = a.free_space();
    a.grow(0x8000, 0x3000);
    assert_eq!(a.free_space(), before + 0x3000);
    assert_eq!(a.free_blocks(), vec![block(0x1000, 0x1000), block(0x8000, 0x3000)]);
}

#[test]
fn growth_next_to_free_block_merges() {
    let mut a = LinkedListAllocator::new();
    a.init(0x1000, 0x1000);
    a.grow(0x2000, 0x1000);
    assert_eq!(a.free_blocks(), vec![block(0x1000, 0x2000)]);
    assert_eq!(a.free_space(), 0x2000);
}

#[test]
fn growth_by_nothing_changes_nothing() {
    let mut a = LinkedListAllocator::new();
    a.init(0x1000, 0x1000);
    a.grow(0x8000, 0);
    assert_eq!(a.free_blocks(), vec![block(0x1000, 0x1000)]);
}

#[test]
fn alignment_padding_can_make_a_large_enough_block_fail() {
    let mut a = LinkedListAllocator::new();
    a.init(0x1010, 4096);
    assert_eq!(a.free_space(), 4096);
    assert_eq!(a.allocate(4096, 4096), None);
    assert_eq!(a.free_blocks(), vec![block(0x1010, 4096)]);
    assert_eq!(a.allocate(4096, 1), Some(0x1010));
}

#[test]
fn alignment_falls_through_to_next_candidate() {
    let mut a = LinkedListAllocator::new();
    a.init(0x1010, 4096);
    a.grow(0x10000, 0x2000);
    let addr = a.allocate(4096, 4096).unwrap();
    assert_eq!(addr, 0x10000);
    assert_eq!(addr % 4096, 0);
    assert_eq!(a.free_blocks(), vec![block(0x1010, 4096), block(0x11000, 0x1000)]);
}

#[test]
fn alignment_padding_stays_free() {
    let mut a = LinkedListAllocator::new();
    a.init(0x1010, 0x3000);
    let addr = a.allocate(0x1000, 0x1000).unwrap();
    assert_eq!(addr, 0x2000);
    assert_eq!(a.free_blocks(), vec![block(0x1010, 0xff0), block(0x3000, 0x1010)]);
    assert_eq!(a.free_space(), 0x2000);
    a.dealloc(addr, 0x1000);
    assert_eq!(a.free_blocks(), vec![block(0x1010, 0x3000)]);
}

#[test]
fn dealloc_joins_block_before() {
    let mut a = LinkedListAllocator::new();
    a.init(0x1000, 0x100);
    a.dealloc(0x1100, 0x80);
    assert_eq!(a.free_blocks(), vec![block(0x1000, 0x180)]);
}

#[test]
fn dealloc_joins_block_after() {
    let mut a = LinkedListAllocator::new();
    a.init(0x1000, 0x100);
    a.dealloc(0xf00, 0x100);
    assert_eq!(a.free_blocks(), vec![block(0xf00, 0x200)]);
}

#[test]
fn dealloc_joins_both_neighbours() {
    let mut a = LinkedListAllocator::new();
    a.init(0x1000, 0x100);
    a.grow(0x1200, 0x100);
    a.dealloc(0x1100, 0x100);
    assert_eq!(a.free_blocks(), vec![block(0x1000, 0x300)]);
    assert_eq!(a.free_space(), 0x300);
}

#[test]
fn dealloc_without_neighbours_keeps_address_order() {
    let mut a = LinkedListAllocator::new();
    a.init(0x1000, 0x100);
    a.grow(0x3000, 0x100);
    a.dealloc(0x2000, 0x10);
    a.dealloc(0x800, 0x10);
    a.dealloc(0x4000, 0x10);
    assert_eq!(
        a.free_blocks(),
        vec![
            block(0x800, 0x10),
            block(0x1000, 0x100),
            block(0x2000, 0x10),
            block(0x3000, 0x100),
            block(0x4000, 0x10)
        ]
    );
}

#[test]
fn zero_sized_allocation_takes_nothing() {
    let mut a = LinkedListAllocator::new();
    a.init(0x1001, 0x100);
    assert_eq!(a.allocate(0, 8), Some(0x1008));
    assert_eq!(a.free_blocks(), vec![block(0x1001, 0x100)]);
}

#[test]
fn is_unused_tells_free_bytes_from_others() {
    let mut a = LinkedListAllocator::new();
    a.init(0x1000, 0x100);
    assert!(a.is_unused(0x1100, 0x10));
    assert!(a.is_unused(0xff0, 0x10));
    assert!(!a.is_unused(0x10ff, 1));
    assert!(!a.is_unused(0xfff, 2));
    assert!(!a.is_unused(0x800, 0x1000));
    assert!(!a.is_unused(usize::MAX, 1));
    assert!(a.is_unused(usize::MAX - 1, 1));
}

#[test]
fn end_to_end_freed_slot_is_reused_first() {
    let base = 0x10_0000usize;
    let mut a = LinkedListAllocator::new();
    a.init(base, 64 * 1024);
    let mut addrs = Vec::new();
    for _ in 0..10 {
        addrs.push(a.allocate(1024, 1).unwrap());
    }
    for (i, addr) in addrs.iter().enumerate() {
        assert_eq!(*addr, base + i * 1024);
    }
    assert_eq!(a.free_space(), 54 * 1024);
    a.dealloc(addrs[4], 1024);
    assert_eq!(
        a.free_blocks(),
        vec![block(base + 4 * 1024, 1024), block(base + 10 * 1024, 54 * 1024)]
    );
    let again = a.allocate(1024, 1).unwrap();
    assert_eq!(again, addrs[4]);
    assert_eq!(a.free_blocks(), vec![block(base + 10 * 1024, 54 * 1024)]);
    assert_eq!(a.allocate(1024, 1), Some(base + 10 * 1024));
}

#[test]
fn dummy_never_allocates() {
    let d = Dummy;
    assert_eq!(d.allocate(1, 1), None);
    assert_eq!(d.allocate(0, 8), None);
    assert_eq!(d.allocate(4096, 4096), None);
}

#[test]
fn locked_gives_access_to_the_value() {
    let locked = Locked::new(LinkedListAllocator::new());
    {
        let mut guard = locked.lock();
        guard.init(0x1000, 0x100);
    }
    {
        let mut guard = locked.lock();
        assert_eq!(guard.free_space(), 0x100);
        assert_eq!(guard.allocate(0x40, 1), Some(0x1000));
    }
    assert_eq!(locked.lock().free_space(), 0xc0);
}

#[test]
fn locked_counter_is_updated_under_the_lock() {
    let locked = Locked::new(0u64);
    for _ in 0..5 {
        *locked.lock() += 2;
    }
    assert_eq!(*locked.lock(), 10);
}

use kernel_sim::modules::mem::buddy::{Block, BlockState, BuddyAllocator, BuddyError};

fn free_block(address: usize, size: usize) -> (usize, usize, BlockState, Option<u32>) {
    (address, size, BlockState::Free, None)
}

fn layout(allocator: &BuddyAllocator) -> Vec<(usize, usize, BlockState, Option<u32>)> {
    allocator
        .blocks()
        .iter()
        .map(|b: &Block| (b.address, b.size, b.state, b.pid))
        .collect()
}

#[test]
fn test_buddy_alloc_free() {
    let mut allocator = BuddyAllocator::new(1024, 64);

    // 100 bytes are rounded up to 128.
    let addr1 = allocator.allocate(1, 100).unwrap();
    assert_eq!(addr1, 0);

    // 50 bytes are rounded up to 64.
    let _addr2 = allocator.allocate(2, 50).unwrap();

    allocator.free(addr1).unwrap();

    let stats = allocator.stats();
    assert!(stats.allocated_memory > 0);
}

#[test]
fn test_buddy_coalescing() {
    let mut allocator = BuddyAllocator::new(1024, 64);

    let addr1 = allocator.allocate(1, 64).unwrap();
    let addr2 = allocator.allocate(2, 64).unwrap();

    // Both released: they merge.
    allocator.free(addr1).unwrap();
    allocator.free(addr2).unwrap();

    let stats = allocator.stats();
    assert!(stats.free_blocks < 3);
}

#[test]
fn fresh_allocator_is_one_free_block() {
    let allocator = BuddyAllocator::new(1024, 64);
    assert_eq!(layout(&allocator), vec![free_block(0, 1024)]);
    assert_eq!(allocator.total_size(), 1024);
    assert_eq!(allocator.min_block_size(), 64);
    let stats = allocator.stats();
    assert_eq!(stats.total_size, 1024);
    assert_eq!(stats.free_memory, 1024);
    assert_eq!(stats.allocated_memory, 0);
    assert_eq!(stats.free_blocks, 1);
    assert_eq!(stats.allocated_blocks, 0);
    assert_eq!(stats.total_allocations, 0);
    assert_eq!(stats.total_deallocations, 0);
    assert_eq!(stats.internal_fragmentation, 0);
    assert_eq!(stats.largest_free_block, 1024);
}

#[test]
fn allocation_splits_down_to_the_rounded_size() {
    let mut allocator = BuddyAllocator::new(1024, 64);
    assert_eq!(allocator.allocate(7, 100), Ok(0));
    assert_eq!(
        layout(&allocator),
        vec![
            (0, 128, BlockState::Allocated, Some(7)),
            free_block(128, 128),
            free_block(256, 256),
            free_block(512, 512),
        ]
    );
    let stats = allocator.stats();
    assert_eq!(stats.free_memory, 896);
    assert_eq!(stats.allocated_memory, 128);
    assert_eq!(stats.free_blocks, 3);
    assert_eq!(stats.allocated_blocks, 1);
    assert_eq!(stats.total_allocations, 1);
    assert_eq!(stats.internal_fragmentation, 28);
    assert_eq!(stats.largest_free_block, 512);
}

#[test]
fn small_requests_get_the_smallest_block() {
    let mut allocator = BuddyAllocator::new(1024, 64);
    assert_eq!(allocator.allocate(1, 1), Ok(0));
    assert_eq!(allocator.allocate(2, 64), Ok(64));
    assert_eq!(allocator.allocate(3, 65), Ok(128));
    assert_eq!(
        layout(&allocator),
        vec![
            (0, 64, BlockState::Allocated, Some(1)),
            (64, 64, BlockState::Allocated, Some(2)),
            (128, 128, BlockState::Allocated, Some(3)),
            free_block(256, 256),
            free_block(512, 512),
        ]
    );
    assert_eq!(allocator.stats().internal_fragmentation, 63 + 0 + 63);
}

#[test]
fn first_fit_takes_the_lowest_block_that_is_large_enough() {
    let mut allocator = BuddyAllocator::new(1024, 64);
    let a = allocator.allocate(1, 64).unwrap();
    let b = allocator.allocate(1, 64).unwrap();
    let c = allocator.allocate(1, 128).unwrap();
    assert_eq!((a, b, c), (0, 64, 128));
    allocator.free(a).unwrap();
    // The free block at 0 is too small for 128 bytes: the one at 256 is split.
    assert_eq!(allocator.allocate(2, 128), Ok(256));
    // It serves 64 bytes.
    assert_eq!(allocator.allocate(3, 10), Ok(0));
}

#[test]
fn whole_range_can_be_allocated() {
    let mut allocator = BuddyAllocator::new(1024, 64);
    assert_eq!(allocator.allocate(1, 1024), Ok(0));
    assert_eq!(layout(&allocator), vec![(0, 1024, BlockState::Allocated, Some(1))]);
    assert_eq!(allocator.allocate(2, 1), Err(BuddyError::OutOfMemory));
    assert_eq!(allocator.free(0), Ok(()));
    assert_eq!(layout(&allocator), vec![free_block(0, 1024)]);
}

#[test]
fn invalid_sizes_are_rejected_without_change() {
    let mut allocator = BuddyAllocator::new(1024, 64);
    allocator.allocate(1, 64).unwrap();
    let before = layout(&allocator);
    assert_eq!(allocator.allocate(1, 0), Err(BuddyError::InvalidSize));
    assert_eq!(allocator.allocate(1, 1025), Err(BuddyError::InvalidSize));
    assert_eq!(layout(&allocator), before);
    assert_eq!(allocator.stats().total_allocations, 1);
}

#[test]
fn out_of_memory_leaves_the_allocator_unchanged() {
    let mut allocator = BuddyAllocator::new(256, 64);
    assert_eq!(allocator.allocate(1, 128), Ok(0));
    assert_eq!(allocator.allocate(2, 64), Ok(128));
    let before = layout(&allocator);
    // 64 bytes are free, but no block of 128.
    assert_eq!(allocator.allocate(3, 100), Err(BuddyError::OutOfMemory));
    assert_eq!(layout(&allocator), before);
    assert_eq!(allocator.stats().total_allocations, 2);
    assert_eq!(allocator.stats().internal_fragmentation, 0);
}

#[test]
fn free_of_an_unknown_address_is_rejected_without_change() {
    let mut allocator = BuddyAllocator::new(1024, 64);
    let a = allocator.allocate(1, 64).unwrap();
    let before = layout(&allocator);
    assert_eq!(allocator.free(64), Err(BuddyError::NotAllocated));
    assert_eq!(allocator.free(3), Err(BuddyError::NotAllocated));
    assert_eq!(layout(&allocator), before);
    assert_eq!(allocator.free(a), Ok(()));
    assert_eq!(allocator.free(a), Err(BuddyError::NotAllocated));
    assert_eq!(allocator.stats().total_deallocations, 1);
}

#[test]
fn allocation_and_release_restore_a_fresh_allocator() {
    for size in [1usize, 63, 64, 65, 100, 128, 500, 512, 513, 1024] {
        let mut allocator = BuddyAllocator::new(1024, 64);
        let before = allocator.stats();
        let address = allocator.allocate(9, size).unwrap();
        assert_eq!(address, 0);
        allocator.free(address).unwrap();
        let after = allocator.stats();
        assert_eq!(after.free_blocks, before.free_blocks);
        assert_eq!(after.free_memory, before.free_memory);
        assert_eq!(after.allocated_blocks, 0);
        assert_eq!(after.largest_free_block, 1024);
        assert_eq!(layout(&allocator), vec![free_block(0, 1024)]);
        assert_eq!(after.total_allocations, 1);
        assert_eq!(after.total_deallocations, 1);
    }
}

#[test]
fn two_smallest_blocks_merge_in_either_order() {
    let mut allocator = BuddyAllocator::new(1024, 64);
    let a = allocator.allocate(1, 64).unwrap();
    let b = allocator.allocate(2, 64).unwrap();
    assert_eq!((a, b), (0, 64));
    allocator.free(a).unwrap();
    assert_eq!(
        layout(&allocator),
        vec![
            free_block(0, 64),
            (64, 64, BlockState::Allocated, Some(2)),
            free_block(128, 128),
            free_block(256, 256),
            free_block(512, 512),
        ]
    );
    allocator.free(b).unwrap();
    assert_eq!(layout(&allocator), vec![free_block(0, 1024)]);

    let mut allocator = BuddyAllocator::new(1024, 64);
    let a = allocator.allocate(1, 64).unwrap();
    let b = allocator.allocate(2, 64).unwrap();
    allocator.free(b).unwrap();
    allocator.free(a).unwrap();
    assert_eq!(layout(&allocator), vec![free_block(0, 1024)]);
}

#[test]
fn merging_stops_at_a_buddy_that_is_held_or_split() {
    let mut allocator = BuddyAllocator::new(1024, 64);
    let a = allocator.allocate(1, 64).unwrap();
    let b = allocator.allocate(2, 64).unwrap();
    let c = allocator.allocate(3, 64).unwrap();
    assert_eq!(c, 128);
    allocator.free(a).unwrap();
    allocator.free(b).unwrap();
    // The pair at 0 has merged; its buddy at 128 is split and partly held.
    assert_eq!(
        layout(&allocator),
        vec![
            free_block(0, 128),
            (128, 64, BlockState::Allocated, Some(3)),
            free_block(192, 64),
            free_block(256, 256),
            free_block(512, 512),
        ]
    );
    allocator.free(c).unwrap();
    assert_eq!(layout(&allocator), vec![free_block(0, 1024)]);
}

#[test]
fn block_sizes_add_up_and_blocks_are_aligned() {
    let mut allocator = BuddyAllocator::new(4096, 64);
    let mut held = Vec::new();
    for (i, size) in [100usize, 64, 1000, 1, 300, 64, 64].iter().enumerate() {
        held.push(allocator.allocate(i as u32, *size).unwrap());
        let blocks = layout(&allocator);
        assert_eq!(blocks.iter().map(|b| b.1).sum::<usize>(), 4096);
        for b in &blocks {
            assert!(b.1.is_power_of_two());
            assert!(b.1 >= 64);
            assert_eq!(b.0 % b.1, 0);
        }
    }
    for address in [held[2], held[0], held[5], held[3]] {
        allocator.free(address).unwrap();
        let blocks = layout(&allocator);
        assert_eq!(blocks.iter().map(|b| b.1).sum::<usize>(), 4096);
        for b in &blocks {
            assert_eq!(b.0 % b.1, 0);
        }
        let stats = allocator.stats();
        assert_eq!(stats.free_memory + stats.allocated_memory, 4096);
    }
}

#[test]
fn external_fragmentation_shows_when_a_buddy_stays_held() {
    let mut allocator = BuddyAllocator::new(1024, 64);
    let a = allocator.allocate(1, 64).unwrap();
    let _b = allocator.allocate(2, 64).unwrap();
    allocator.free(a).unwrap();
    let stats = allocator.stats();
    assert_eq!(stats.free_memory, 960);
    assert_eq!(stats.largest_free_block, 512);
    let pct = (1.0 - stats.largest_free_block as f64 / stats.free_memory as f64) * 100.0;
    assert!(pct > 0.0);
    assert!((pct - 46.666_666_666_666_664).abs() < 1e-9);
}

#[test]
fn internal_fragmentation_is_cumulative() {
    let mut allocator = BuddyAllocator::new(1024, 64);
    let a = allocator.allocate(1, 100).unwrap();
    allocator.free(a).unwrap();
    let b = allocator.allocate(1, 100).unwrap();
    assert_eq!(b, 0);
    assert_eq!(allocator.stats().internal_fragmentation, 56);
}

#[test]
fn smallest_block_may_be_the_whole_range() {
    let mut allocator = BuddyAllocator::new(64, 64);
    assert_eq!(allocator.allocate(1, 10), Ok(0));
    assert_eq!(allocator.allocate(1, 10), Err(BuddyError::OutOfMemory));
    assert_eq!(allocator.free(0), Ok(()));
    assert_eq!(layout(&allocator), vec![free_block(0, 64)]);
}

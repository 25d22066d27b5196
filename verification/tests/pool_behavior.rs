use vk_alloc::bucket::calculate_bucket_index;
use vk_alloc::math::{align_down, align_up, is_on_same_page};
use vk_alloc::pool::MemoryPool;
use vk_alloc::types::{AllocatorError, ChunkType};

#[test]
fn bucket_index_smallest_class_covers_256() {
    assert_eq!(calculate_bucket_index(1), 0);
    assert_eq!(calculate_bucket_index(100), 0);
    assert_eq!(calculate_bucket_index(256), 0);
}

#[test]
fn bucket_index_steps_past_256() {
    assert_eq!(calculate_bucket_index(257), 1);
    assert_eq!(calculate_bucket_index(512), 1);
    assert_eq!(calculate_bucket_index(513), 2);
    assert_eq!(calculate_bucket_index(1024), 2);
}

#[test]
fn bucket_index_doubling_advances_one_bucket() {
    assert_eq!(calculate_bucket_index(300), 1);
    assert_eq!(calculate_bucket_index(600), 2);
    assert_eq!(calculate_bucket_index(1200), 3);
}

#[test]
fn bucket_index_is_monotonic_on_samples() {
    let mut last = 0;
    for size in 1..5000u64 {
        let b = calculate_bucket_index(size);
        assert!(b >= last);
        last = b;
    }
}

#[test]
fn align_up_and_down() {
    assert_eq!(align_up(300, 256), 512);
    assert_eq!(align_up(256, 256), 256);
    assert_eq!(align_up(0, 256), 0);
    assert_eq!(align_down(511, 256), 256);
    assert_eq!(align_down(512, 256), 512);
}

#[test]
fn page_sharing() {
    // A range ending at byte 255 and a range starting at byte 256 share
    // the 1024-byte page 0.
    assert!(is_on_same_page(0, 256, 256, 1024));
    // A range ending at byte 1023 and a range starting at 1024 do not.
    assert!(!is_on_same_page(0, 1024, 1024, 1024));
}

#[test]
fn granularity_conflict_table() {
    assert!(!ChunkType::Free.granularity_conflict(ChunkType::Linear));
    assert!(!ChunkType::Linear.granularity_conflict(ChunkType::Free));
    assert!(!ChunkType::Linear.granularity_conflict(ChunkType::Linear));
    assert!(!ChunkType::Optimal.granularity_conflict(ChunkType::Optimal));
    assert!(ChunkType::Linear.granularity_conflict(ChunkType::Optimal));
    assert!(ChunkType::Optimal.granularity_conflict(ChunkType::Linear));
}

/// The scenario of a 1024-byte block with 256-byte alignment: two
/// 300-byte allocations at offsets 0 and 512, then both freed, coalescing
/// back to one whole free block.
#[test]
fn block_scenario_offsets_and_coalescing() {
    let mut pool = MemoryPool::new(1024, 0, false);
    assert!(pool
        .try_allocate(1, 300, 256, 7, false)
        .is_none());
    pool.allocate_new_block(0x1000, None);
    assert_eq!(pool.block_count(), 1);
    assert_eq!(pool.unused_bytes(), 1024);

    let a = pool.try_allocate(1, 300, 256, 7, false).unwrap();
    assert_eq!(a.offset(), 0);
    assert_eq!(a.size(), 300);
    assert_eq!(pool.allocation_count(), 1);

    let b = pool.try_allocate(1, 300, 256, 7, false).unwrap();
    assert_eq!(b.offset(), 512);
    assert_eq!(b.size(), 300);
    assert_eq!(pool.allocation_count(), 2);
    assert_eq!(pool.block_count(), 1);

    // Free A: its 300 bytes become free again; B is still in use, so
    // nothing merges past it.
    let before = pool.unused_bytes();
    pool.free_chunk(a.chunk_key.unwrap()).unwrap();
    assert_eq!(pool.unused_bytes(), before + 300);
    assert_eq!(pool.allocation_count(), 1);

    // Free B: everything coalesces into one whole free block.
    pool.free_chunk(b.chunk_key.unwrap()).unwrap();
    assert_eq!(pool.unused_bytes(), 1024);
    assert_eq!(pool.used_bytes(), 0);
    assert_eq!(pool.allocation_count(), 0);
    assert_eq!(pool.block_count(), 1);
    assert_eq!(pool.unused_range_count(), 1);
}

/// Allocate then immediately free returns the pool to the same unused
/// bytes and block count.
#[test]
fn allocate_free_round_trip() {
    let mut pool = MemoryPool::new(4096, 0, false);
    pool.allocate_new_block(0x2000, None);
    let unused = pool.unused_bytes();
    let blocks = pool.block_count();
    let a = pool.try_allocate(1, 1000, 64, 0, false).unwrap();
    pool.free_chunk(a.chunk_key.unwrap()).unwrap();
    assert_eq!(pool.unused_bytes(), unused);
    assert_eq!(pool.block_count(), blocks);
    assert_eq!(pool.allocation_count(), 0);
}

/// Best fit: of free chunks leaving 40, 10 and 25 bytes over, the one
/// leaving 10 over must win.
#[test]
fn best_fit_picks_smallest_leftover() {
    let mut pool = MemoryPool::new(1024, 0, false);
    // Build three blocks, each with one free chunk of a chosen size:
    // 300 (leftover 40), 270 (leftover 10), 285 (leftover 25) for a
    // 260-byte request. All three sit in the same size bucket.
    let handles = [0x10u64, 0x20, 0x30];
    let sizes = [300u64, 270, 285];
    let mut first = Vec::new();
    for i in 0..3 {
        pool.allocate_new_block(handles[i], None);
        let head = pool.try_allocate(1, sizes[i], 1, 0, false).unwrap();
        let filler = pool.try_allocate(1, 1024 - sizes[i], 1, 0, false).unwrap();
        assert_eq!(filler.device_memory(), handles[i]);
        first.push(head);
    }
    for head in first {
        pool.free_chunk(head.chunk_key.unwrap()).unwrap();
    }
    let a = pool.try_allocate(1, 260, 1, 0, false).unwrap();
    assert_eq!(a.device_memory(), 0x20);
    assert_eq!(a.size(), 260);
}

/// A linear chunk followed by an optimal request on the same device page
/// is pushed to the next page boundary; two linear chunks are packed
/// back to back.
#[test]
fn granularity_separation() {
    let mut pool = MemoryPool::new(4096, 0, false);
    pool.allocate_new_block(0x3000, None);
    let linear = pool.try_allocate(1024, 100, 1, 0, false).unwrap();
    assert_eq!(linear.offset(), 0);
    let optimal = pool.try_allocate(1024, 100, 1, 0, true).unwrap();
    assert_eq!(optimal.offset(), 1024);

    let mut pool2 = MemoryPool::new(4096, 0, false);
    pool2.allocate_new_block(0x4000, None);
    let l1 = pool2.try_allocate(1024, 100, 1, 0, false).unwrap();
    let l2 = pool2.try_allocate(1024, 100, 1, 0, false).unwrap();
    assert_eq!(l1.offset(), 0);
    assert_eq!(l2.offset(), 100);
}

/// Freeing the same chunk twice is refused and changes nothing.
#[test]
fn double_free_is_refused() {
    let mut pool = MemoryPool::new(1024, 0, false);
    pool.allocate_new_block(0x5000, None);
    let a = pool.try_allocate(1, 300, 1, 0, false).unwrap();
    let b = pool.try_allocate(1, 200, 1, 0, false).unwrap();
    pool.free_chunk(a.chunk_key.unwrap()).unwrap();
    let used = pool.used_bytes();
    let unused = pool.unused_bytes();
    let count = pool.allocation_count();
    let second = pool.free_chunk(a.chunk_key.unwrap());
    assert_eq!(second, Err(AllocatorError::CantFindChunk));
    assert_eq!(pool.used_bytes(), used);
    assert_eq!(pool.unused_bytes(), unused);
    assert_eq!(pool.allocation_count(), count);
    pool.free_chunk(b.chunk_key.unwrap()).unwrap();
    assert_eq!(pool.unused_bytes(), 1024);
}

#[test]
fn free_of_unknown_chunk_fails() {
    let mut pool = MemoryPool::new(1024, 0, false);
    assert_eq!(pool.free_chunk(17), Err(AllocatorError::CantFindChunk));
}

/// A dedicated block is freed whole; freeing it twice is refused.
#[test]
fn dedicated_block_lifecycle() {
    let mut pool = MemoryPool::new(1024, 0, false);
    let a = pool.allocate_dedicated(0x6000, 5000, None, 3);
    assert!(a.chunk_key.is_none());
    assert_eq!(a.offset(), 0);
    assert_eq!(a.size(), 5000);
    assert_eq!(pool.used_bytes(), 5000);
    assert_eq!(pool.block_count(), 1);
    let blk = pool.free_block(a.block_key).unwrap();
    assert_eq!(blk.device_memory, 0x6000);
    assert_eq!(blk.size, 5000);
    assert!(blk.is_dedicated);
    assert_eq!(pool.block_count(), 0);
    assert_eq!(pool.free_block(a.block_key), Err(AllocatorError::CantFindBlock));
}

/// Mapped blocks hand each allocation the address of its own first byte.
#[test]
fn mapped_pointers_follow_offsets() {
    let mut pool = MemoryPool::new(1024, 0, true);
    pool.allocate_new_block(0x7000, Some(0x9_0000));
    let a = pool.try_allocate(1, 300, 1, 0, false).unwrap();
    let b = pool.try_allocate(1, 100, 1, 0, false).unwrap();
    assert_eq!(a.mapped_ptr(), Some(0x9_0000));
    assert_eq!(b.mapped_ptr(), Some(0x9_0000 + 300));
}

/// Emptying the pool hands back every live block's record.
#[test]
fn cleanup_returns_all_blocks() {
    let mut pool = MemoryPool::new(1024, 0, false);
    pool.allocate_new_block(0xA000, None);
    pool.allocate_new_block(0xB000, None);
    pool.allocate_dedicated(0xC000, 2000, None, 0);
    let blocks = pool.cleanup();
    let handles: Vec<u64> = blocks.iter().map(|b| b.device_memory).collect();
    assert_eq!(handles, vec![0xA000, 0xB000, 0xC000]);
    assert_eq!(pool.block_count(), 0);
    assert_eq!(pool.allocation_count(), 0);
    assert_eq!(pool.unused_bytes(), 0);
}

/// Freeing the middle chunk last merges in both directions: one free
/// chunk spans the whole block again.
#[test]
fn middle_free_merges_both_neighbours() {
    let mut pool = MemoryPool::new(1024, 0, false);
    pool.allocate_new_block(0x8000, None);
    let a = pool.try_allocate(1, 200, 1, 0, false).unwrap();
    let b = pool.try_allocate(1, 200, 1, 0, false).unwrap();
    let c = pool.try_allocate(1, 200, 1, 0, false).unwrap();
    pool.free_chunk(a.chunk_key.unwrap()).unwrap();
    pool.free_chunk(c.chunk_key.unwrap()).unwrap();
    assert_eq!(pool.unused_range_count(), 2);
    pool.free_chunk(b.chunk_key.unwrap()).unwrap();
    assert_eq!(pool.unused_range_count(), 1);
    assert_eq!(pool.unused_bytes(), 1024);
    assert_eq!(pool.allocation_count(), 0);
}

use vk_alloc::allocator::{
    AllocateStep, Allocator, DeallocateStep, MemoryTypeInfo, MEMORY_PROPERTY_DEVICE_LOCAL,
    MEMORY_PROPERTY_HOST_CACHED, MEMORY_PROPERTY_HOST_COHERENT, MEMORY_PROPERTY_HOST_VISIBLE,
    DRIVER_ID_AMD_OPEN_SOURCE,
};
use vk_alloc::types::{
    AllocationDescriptor, AllocatorDescriptor, AllocatorError, MemoryLocation,
};

fn gpu_only_types() -> Vec<MemoryTypeInfo> {
    vec![
        MemoryTypeInfo { property_flags: MEMORY_PROPERTY_DEVICE_LOCAL },
        MemoryTypeInfo {
            property_flags: MEMORY_PROPERTY_HOST_VISIBLE | MEMORY_PROPERTY_HOST_COHERENT,
        },
    ]
}

fn small_allocator() -> Allocator {
    // 2^10 = 1024-byte blocks keep the scenarios small.
    Allocator::new(
        0,
        false,
        1024,
        gpu_only_types(),
        &AllocatorDescriptor { block_size: 10 },
    )
    .unwrap()
}

fn request(size: u64, alignment: u64) -> AllocationDescriptor {
    AllocationDescriptor {
        location: MemoryLocation::GpuOnly,
        size,
        alignment,
        memory_type_bits: u32::MAX,
        lifetime: 0,
        is_dedicated: false,
        is_optimal: false,
    }
}

#[test]
fn default_block_size_is_64_mib() {
    assert_eq!(AllocatorDescriptor::default().block_size, 26);
}

#[test]
fn new_rejects_empty_memory_types() {
    let r = Allocator::new(0, false, 1024, Vec::new(), &AllocatorDescriptor { block_size: 10 });
    assert!(matches!(r, Err(AllocatorError::NoCompatibleMemoryTypeFound)));
}

#[test]
fn zero_size_and_bad_alignment_are_invalid() {
    let mut alloc = small_allocator();
    let r = alloc.allocate(&request(0, 64));
    assert_eq!(r, Err(AllocatorError::InvalidAlignment));
    let r = alloc.allocate(&request(100, 3));
    assert_eq!(r, Err(AllocatorError::InvalidAlignment));
}

#[test]
fn discrete_gpu_prefers_device_local() {
    let alloc = small_allocator();
    let i = alloc.find_memory_type_index(MemoryLocation::GpuOnly, u32::MAX).unwrap();
    assert_eq!(i, 0);
    let i = alloc.find_memory_type_index(MemoryLocation::GpuToCpu, u32::MAX);
    // No host-cached type exists, and the fallback also wants one.
    assert_eq!(i, Err(AllocatorError::NoCompatibleMemoryTypeFound));
}

#[test]
fn unified_memory_driver_relaxes_gpu_only() {
    // An integrated AMD device: the main heap is not device-local, so
    // GpuOnly must settle for host-visible, host-coherent memory.
    let alloc = Allocator::new(
        DRIVER_ID_AMD_OPEN_SOURCE,
        true,
        1024,
        gpu_only_types(),
        &AllocatorDescriptor { block_size: 10 },
    )
    .unwrap();
    let i = alloc.find_memory_type_index(MemoryLocation::GpuOnly, u32::MAX).unwrap();
    assert_eq!(i, 1);
}

#[test]
fn fallback_flags_apply_when_preferred_fails() {
    // Upload memory prefers device-local + host-visible; with no such
    // type, the minimal host-visible + host-coherent set must do.
    let alloc = small_allocator();
    let i = alloc.find_memory_type_index(MemoryLocation::CpuToGpu, u32::MAX).unwrap();
    assert_eq!(i, 1);
}

#[test]
fn memory_type_bits_filter_types() {
    let alloc = small_allocator();
    // Only type 1 is allowed by the bitmask.
    let i = alloc.find_memory_type_index(MemoryLocation::CpuToGpu, 0b10).unwrap();
    assert_eq!(i, 1);
}

#[test]
fn compatible_bitmask_check() {
    assert!(vk_alloc::allocator::memory_type_is_compatible(0, 0b1));
    assert!(!vk_alloc::allocator::memory_type_is_compatible(1, 0b1));
    assert!(vk_alloc::allocator::memory_type_is_compatible(4, 0b10000));
}

/// A request of at least the block size is always served dedicated, with
/// the block sized exactly to the request.
#[test]
fn dedicated_threshold() {
    let mut alloc = small_allocator();
    let step = alloc.allocate(&request(1024, 64)).unwrap();
    let (mt, size) = match step {
        AllocateStep::NeedsDedicatedBlock { memory_type_index, size, .. } => {
            (memory_type_index, size)
        }
        _ => panic!("a block-sized request must be dedicated"),
    };
    assert_eq!(size, 1024);
    let a = alloc.finish_allocate_dedicated(0, mt, 0xD000, size, None);
    assert!(a.chunk_key.is_none());
    assert_eq!(a.offset(), 0);
    assert_eq!(a.size(), 1024);
    assert_eq!(a.device_memory(), 0xD000);

    let step = alloc.allocate(&request(5000, 64)).unwrap();
    assert!(matches!(step, AllocateStep::NeedsDedicatedBlock { size: 5000, .. }));
}

#[test]
fn explicit_dedicated_request() {
    let mut alloc = small_allocator();
    let mut desc = request(100, 64);
    desc.is_dedicated = true;
    let step = alloc.allocate(&desc).unwrap();
    assert!(matches!(step, AllocateStep::NeedsDedicatedBlock { size: 100, .. }));
}

/// The grow-and-retry protocol: an empty allocator asks for one block,
/// then serves the request from it at offset 0.
#[test]
fn allocate_grows_then_serves() {
    let mut alloc = small_allocator();
    let step = alloc.allocate(&request(300, 64)).unwrap();
    let (mt, size) = match step {
        AllocateStep::NeedsBlock { memory_type_index, size, mappable } => {
            assert!(!mappable);
            (memory_type_index, size)
        }
        _ => panic!("an empty allocator must ask for a block"),
    };
    assert_eq!(size, 1024);
    let a = alloc.finish_allocate_grown(0, mt, 0xE000, None, 300, 64, false);
    assert_eq!(a.offset(), 0);
    assert_eq!(a.size(), 300);
    assert_eq!(a.device_memory(), 0xE000);
    assert_eq!(alloc.allocation_count(), 1);
    assert_eq!(alloc.block_count(), 1);
    assert_eq!(alloc.used_bytes(), 300);
    assert_eq!(alloc.unused_bytes(), 1024 - 300);

    // The next request of the same shape fits without growing.
    let step = alloc.allocate(&request(300, 64)).unwrap();
    let b = match step {
        AllocateStep::Done(b) => b,
        _ => panic!("the block still has room"),
    };
    assert_eq!(b.offset(), 320);
    assert_eq!(alloc.allocation_count(), 2);

    // Free both; the stats return to one whole free block.
    assert_eq!(alloc.deallocate(&a), Ok(DeallocateStep::Done));
    assert_eq!(alloc.deallocate(&b), Ok(DeallocateStep::Done));
    assert_eq!(alloc.allocation_count(), 0);
    assert_eq!(alloc.used_bytes(), 0);
    assert_eq!(alloc.unused_bytes(), 1024);
    assert_eq!(alloc.block_count(), 1);

    // Freeing the same handle again is refused.
    assert_eq!(alloc.deallocate(&a), Err(AllocatorError::CantFindChunk));
}

#[test]
fn deallocate_unknown_lifetime_is_internal() {
    let mut alloc = small_allocator();
    let step = alloc.allocate(&request(300, 64)).unwrap();
    let mt = match step {
        AllocateStep::NeedsBlock { memory_type_index, .. } => memory_type_index,
        _ => panic!("an empty allocator must ask for a block"),
    };
    let mut a = alloc.finish_allocate_grown(0, mt, 0xE100, None, 300, 64, false);
    a.lifetime = 9;
    assert_eq!(alloc.deallocate(&a), Err(AllocatorError::Internal));
}

#[test]
fn dedicated_deallocate_releases_block() {
    let mut alloc = small_allocator();
    let step = alloc.allocate(&request(2048, 64)).unwrap();
    let mt = match step {
        AllocateStep::NeedsDedicatedBlock { memory_type_index, .. } => memory_type_index,
        _ => panic!("an oversized request must be dedicated"),
    };
    let a = alloc.finish_allocate_dedicated(0, mt, 0xF000, 2048, None);
    let r = alloc.deallocate(&a).unwrap();
    match r {
        DeallocateStep::ReleaseBlock(blk) => {
            assert_eq!(blk.device_memory, 0xF000);
            assert_eq!(blk.size, 2048);
            assert!(blk.is_dedicated);
        }
        DeallocateStep::Done => panic!("a dedicated free must hand its block back"),
    }
    assert_eq!(alloc.deallocate(&a), Err(AllocatorError::CantFindBlock));
}

/// Host-visible memory types hand every allocation the address of its
/// first byte.
#[test]
fn mapped_allocations() {
    let mut alloc = small_allocator();
    let mut desc = request(300, 1);
    desc.location = MemoryLocation::CpuToGpu;
    let step = alloc.allocate(&desc).unwrap();
    let mt = match step {
        AllocateStep::NeedsBlock { memory_type_index, mappable, .. } => {
            assert!(mappable);
            memory_type_index
        }
        _ => panic!("an empty allocator must ask for a block"),
    };
    assert_eq!(mt, 1);
    let a = alloc.finish_allocate_grown(0, mt, 0xE200, Some(0x50_0000), 300, 1, false);
    assert_eq!(a.mapped_ptr(), Some(0x50_0000));
    let step = alloc.allocate(&desc).unwrap();
    let b = match step {
        AllocateStep::Done(b) => b,
        _ => panic!("the block still has room"),
    };
    assert_eq!(b.mapped_ptr(), Some(0x50_0000 + 300));
}

#[test]
fn lifetimes_pool_separately() {
    let mut alloc = small_allocator();
    for lifetime in [0usize, 1] {
        let mut desc = request(300, 1);
        desc.lifetime = lifetime;
        let step = alloc.allocate(&desc).unwrap();
        let mt = match step {
            AllocateStep::NeedsBlock { memory_type_index, .. } => memory_type_index,
            _ => panic!("each lifetime starts with empty pools"),
        };
        let a = alloc.finish_allocate_grown(lifetime, mt, 0x1_0000 + lifetime as u64, None, 300, 1, false);
        assert_eq!(a.offset(), 0);
    }
    assert_eq!(alloc.block_count(), 2);
    assert_eq!(alloc.allocation_count(), 2);
}

#[test]
fn cleanup_drains_everything() {
    let mut alloc = small_allocator();
    let step = alloc.allocate(&request(300, 64)).unwrap();
    let mt = match step {
        AllocateStep::NeedsBlock { memory_type_index, .. } => memory_type_index,
        _ => panic!("an empty allocator must ask for a block"),
    };
    alloc.finish_allocate_grown(0, mt, 0x2_0000, None, 300, 64, false);
    let step = alloc.allocate(&request(4000, 64)).unwrap();
    let mt = match step {
        AllocateStep::NeedsDedicatedBlock { memory_type_index, .. } => memory_type_index,
        _ => panic!("an oversized request must be dedicated"),
    };
    alloc.finish_allocate_dedicated(0, mt, 0x3_0000, 4000, None);
    let blocks = alloc.cleanup();
    let handles: Vec<u64> = blocks.iter().map(|b| b.device_memory).collect();
    assert_eq!(handles, vec![0x2_0000, 0x3_0000]);
    assert_eq!(alloc.block_count(), 0);
    assert_eq!(alloc.allocation_count(), 0);
}

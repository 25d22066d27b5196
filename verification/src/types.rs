//! Plain data carried between the allocator, its caller, and the device
//! glue: chunk and block records, request descriptors, allocation handles,
//! and the error taxonomy.

use vstd::prelude::*;

verus! {

/// What a chunk currently holds: nothing, a linear resource (a buffer or a
/// linear image), or an optimally tiled image.
#[derive(Clone, Copy, Debug, PartialEq, Eq, Structural)]
pub enum ChunkType {
    /// The chunk is free.
    Free,
    /// The chunk holds a linear resource.
    Linear,
    /// The chunk holds an optimally tiled resource.
    Optimal,
}

/// Whether chunks of kinds `a` and `b` may not share a device page: only a
/// linear and an optimal resource conflict.
pub open spec fn spec_granularity_conflict(a: ChunkType, b: ChunkType) -> bool {
    a != ChunkType::Free && b != ChunkType::Free && a != b
}

impl ChunkType {
    /// There is an implementation-dependent limit, the buffer-image
    /// granularity, which specifies a page-like granularity at which linear
    /// and non-linear resources must be placed in adjacent memory locations
    /// to avoid aliasing.
    pub fn granularity_conflict(self, other: ChunkType) -> (r: bool)
        ensures
            r == spec_granularity_conflict(self, other),
    {
        if self == ChunkType::Free || other == ChunkType::Free {
            return false;
        }
        self != other
    }
}

/// The intended location of the memory.
#[derive(Clone, Copy, Debug, PartialEq, Eq, Structural)]
pub enum MemoryLocation {
    /// Mainly used for uploading data to the GPU.
    CpuToGpu,
    /// Used as fast access memory for the GPU.
    GpuOnly,
    /// Mainly used for downloading data from the GPU.
    GpuToCpu,
}

/// Why an allocator operation failed.
#[derive(Clone, Copy, Debug, PartialEq, Eq, Structural)]
pub enum AllocatorError {
    /// The requested size was zero, or the alignment was not a power of two.
    InvalidAlignment,
    /// No device memory type satisfies even the relaxed fallback flags for
    /// the requested location.
    NoCompatibleMemoryTypeFound,
    /// The device rejected a block allocation.
    OutOfMemory,
    /// The device allocated a block but mapping it for host access failed.
    FailedToMap,
    /// A chunk key did not name a live, allocated chunk.
    CantFindChunk,
    /// A block key did not name a live, dedicated block.
    CantFindBlock,
    /// Bookkeeping was asked about a pool that does not exist.
    Internal,
}

/// Describes the configuration of an `Allocator`.
#[derive(Clone, Copy, Debug)]
pub struct AllocatorDescriptor {
    /// The size of the blocks that are allocated, as log2 of the size in
    /// bytes. Default: 64 MiB.
    pub block_size: u8,
}

impl Default for AllocatorDescriptor {
    /// The default block size is 2^26 bytes = 64 MiB.
    fn default() -> (d: Self)
        ensures
            d.block_size == 26,
    {
        AllocatorDescriptor { block_size: 26 }
    }
}

/// A contiguous byte range inside a memory block: a node of the block's
/// doubly linked, offset-ordered chunk chain. Links are keys into the
/// owning pool's chunk table, not pointers.
#[derive(Clone, Copy, Debug)]
pub struct MemoryChunk {
    /// Key of the owning block in the pool's block table.
    pub block_key: usize,
    /// Bytes covered by the chunk.
    pub size: u64,
    /// Byte offset of the chunk inside its block.
    pub offset: u64,
    /// Key of the chunk just below this one, `None` at the block start.
    pub previous: Option<usize>,
    /// Key of the chunk just above this one, `None` at the block end.
    pub next: Option<usize>,
    /// What the chunk holds.
    pub chunk_type: ChunkType,
}

/// One memory reservation obtained from the device. The raw device handle
/// and the mapped base address are carried as plain values; only the
/// caller's device glue dereferences them.
#[derive(Clone, Copy, Debug, PartialEq, Eq, Structural)]
pub struct MemoryBlock {
    /// The raw device memory handle, as the driver reported it.
    pub device_memory: u64,
    /// Bytes reserved by the block.
    pub size: u64,
    /// Base address at which the block is mapped for host access, if it is.
    pub mapped_base: Option<u64>,
    /// A dedicated block serves exactly one allocation and is never chunked.
    pub is_dedicated: bool,
}

/// The descriptor for an allocation on the allocator.
#[derive(Clone, Copy, Debug)]
pub struct AllocationDescriptor {
    /// Location where the memory allocation should be stored.
    pub location: MemoryLocation,
    /// Requested size in bytes, as the device reported it.
    pub size: u64,
    /// Required alignment in bytes, as the device reported it.
    pub alignment: u64,
    /// Bitmask of the memory types the resource can live in, as the device
    /// reported it.
    pub memory_type_bits: u32,
    /// The lifetime tag of the allocation. Used to pool together resources
    /// of the same lifetime.
    pub lifetime: usize,
    /// If the allocation should be dedicated.
    pub is_dedicated: bool,
    /// True if the allocation is for an optimally tiled image (a regular
    /// texture). Buffers and linear images need to set this false.
    pub is_optimal: bool,
}

/// An allocation handle: a byte range inside one block of one pool. The
/// caller owns it and must return it to `deallocate` exactly once.
#[derive(Clone, Copy, Debug, PartialEq, Eq, Structural)]
pub struct Allocation {
    /// Index of the memory type the backing block lives in.
    pub memory_type_index: u32,
    /// The lifetime tag under which the allocation was pooled.
    pub lifetime: usize,
    /// Key of the backing block in its pool.
    pub block_key: usize,
    /// Key of the backing chunk, or `None` for a dedicated allocation.
    pub chunk_key: Option<usize>,
    /// The raw device memory handle of the backing block.
    pub device_memory: u64,
    /// Byte offset of the allocation inside the device memory.
    pub offset: u64,
    /// Bytes granted to the caller.
    pub size: u64,
    /// Address of the allocation's first byte in host address space, when
    /// the backing block is mapped.
    pub mapped_ptr: Option<u64>,
}

impl Allocation {
    /// The device memory handle of the allocation. Managed by the allocator.
    pub fn device_memory(&self) -> (r: u64)
        ensures
            r == self.device_memory,
    {
        self.device_memory
    }

    /// The offset inside the device memory.
    pub fn offset(&self) -> (r: u64)
        ensures
            r == self.offset,
    {
        self.offset
    }

    /// The size of the allocation.
    pub fn size(&self) -> (r: u64)
        ensures
            r == self.size,
    {
        self.size
    }

    /// The host address of the allocation's first byte, when the backing
    /// block is host-visible. The range of `size` bytes from it belongs to
    /// this allocation alone until the allocation is freed.
    pub fn mapped_ptr(&self) -> (r: Option<u64>)
        ensures
            r == self.mapped_ptr,
    {
        self.mapped_ptr
    }
}

} // verus!

//! The allocator: a collection of pools keyed by lifetime tag and memory
//! type. It resolves a compatible memory type for each request, creates
//! pools lazily per lifetime tag, and routes allocate and free calls to
//! the right pool.
//!
//! Device memory itself comes from the caller: when a request needs a new
//! block, `allocate` answers with what to obtain from the driver, and the
//! caller completes the request through `finish_allocate_grown` or
//! `finish_allocate_dedicated`.

use crate::math::{is_pow2, lemma_pow2_bounds};
use crate::pool::{live_at, request_chunk_type, MemoryPool};
use crate::types::{Allocation, AllocationDescriptor, AllocatorDescriptor, AllocatorError, MemoryBlock};
use crate::types::{ChunkType, MemoryChunk, MemoryLocation};
use vstd::prelude::*;

verus! {

/// The memory type is device-local: resident where the GPU reads fastest.
pub const MEMORY_PROPERTY_DEVICE_LOCAL: u32 = 1;

/// The memory type can be mapped for host access.
pub const MEMORY_PROPERTY_HOST_VISIBLE: u32 = 2;

/// Host writes need no explicit flush.
pub const MEMORY_PROPERTY_HOST_COHERENT: u32 = 4;

/// Host reads are cached.
pub const MEMORY_PROPERTY_HOST_CACHED: u32 = 8;

/// Driver identifier reported for the AMD proprietary driver.
pub const DRIVER_ID_AMD_PROPRIETARY: u32 = 1;

/// Driver identifier reported for the AMD open-source driver.
pub const DRIVER_ID_AMD_OPEN_SOURCE: u32 = 2;

/// Driver identifier reported for Mesa RADV.
pub const DRIVER_ID_MESA_RADV: u32 = 3;

/// One device memory type, as the driver reported it: the logic reads only
/// its property flags.
#[derive(Clone, Copy, Debug)]
pub struct MemoryTypeInfo {
    /// The memory type's property flag bits.
    pub property_flags: u32,
}

/// All pools of one lifetime tag, one per device memory type.
#[derive(Debug)]
pub struct LifetimePools {
    /// The tag under which these pools were created.
    pub lifetime: usize,
    /// One pool per memory type, indexed by memory type index.
    pub pools: Vec<MemoryPool>,
}

/// What the caller must do next to complete an allocation.
#[derive(Clone, Copy, Debug, PartialEq, Eq, Structural)]
pub enum AllocateStep {
    /// The request was served from an existing free chunk.
    Done(Allocation),
    /// The pool needs one new block of `size` bytes in the given memory
    /// type; obtain it from the driver (mapped, when `mappable`) and call
    /// `finish_allocate_grown`.
    NeedsBlock {
        /// Index of the memory type to allocate the block in.
        memory_type_index: usize,
        /// Bytes to request from the driver: the pool's fixed block size.
        size: u64,
        /// Whether the block must be mapped for host access.
        mappable: bool,
    },
    /// The request is dedicated: obtain a block of exactly `size` bytes
    /// (mapped, when `mappable`) and call `finish_allocate_dedicated`.
    NeedsDedicatedBlock {
        /// Index of the memory type to allocate the block in.
        memory_type_index: usize,
        /// Bytes to request from the driver: exactly the request's size.
        size: u64,
        /// Whether the block must be mapped for host access.
        mappable: bool,
    },
}

/// What the caller must do after a deallocation.
#[derive(Clone, Copy, Debug, PartialEq, Eq, Structural)]
pub enum DeallocateStep {
    /// The chunk was freed and merged; no device work is owed.
    Done,
    /// The allocation was dedicated: release this block's device memory.
    ReleaseBlock(MemoryBlock),
}

/// Whether the driver unifies its device-local and host-visible heaps, so
/// that the usual flag combinations would find no compatible type. The AMD
/// APU main memory heap is not device-local.
pub open spec fn uses_unified_memory(driver_id: u32, is_integrated: bool) -> bool {
    &&& (driver_id == DRIVER_ID_AMD_PROPRIETARY || driver_id == DRIVER_ID_AMD_OPEN_SOURCE
        || driver_id == DRIVER_ID_MESA_RADV)
    &&& is_integrated
}

/// The property flags a location asks for first.
pub open spec fn preferred_flags(location: MemoryLocation, unified: bool) -> u32 {
    if unified {
        match location {
            MemoryLocation::GpuOnly => MEMORY_PROPERTY_HOST_VISIBLE | MEMORY_PROPERTY_HOST_COHERENT,
            MemoryLocation::CpuToGpu => MEMORY_PROPERTY_DEVICE_LOCAL | MEMORY_PROPERTY_HOST_VISIBLE
                | MEMORY_PROPERTY_HOST_COHERENT,
            MemoryLocation::GpuToCpu => MEMORY_PROPERTY_HOST_VISIBLE | MEMORY_PROPERTY_HOST_COHERENT
                | MEMORY_PROPERTY_HOST_CACHED,
        }
    } else {
        match location {
            MemoryLocation::GpuOnly => MEMORY_PROPERTY_DEVICE_LOCAL,
            MemoryLocation::CpuToGpu => MEMORY_PROPERTY_DEVICE_LOCAL | MEMORY_PROPERTY_HOST_VISIBLE
                | MEMORY_PROPERTY_HOST_COHERENT,
            MemoryLocation::GpuToCpu => MEMORY_PROPERTY_HOST_VISIBLE | MEMORY_PROPERTY_HOST_COHERENT
                | MEMORY_PROPERTY_HOST_CACHED,
        }
    }
}

/// The minimal property flags a location falls back to, for drivers that
/// expose no type with the preferred combination.
pub open spec fn fallback_flags(location: MemoryLocation) -> u32 {
    match location {
        MemoryLocation::GpuOnly => MEMORY_PROPERTY_DEVICE_LOCAL,
        MemoryLocation::CpuToGpu => MEMORY_PROPERTY_HOST_VISIBLE | MEMORY_PROPERTY_HOST_COHERENT,
        MemoryLocation::GpuToCpu => MEMORY_PROPERTY_HOST_VISIBLE | MEMORY_PROPERTY_HOST_COHERENT
            | MEMORY_PROPERTY_HOST_CACHED,
    }
}

/// Whether the memory type at `index` is allowed by a compatibility
/// bitmask the driver reported for a resource.
pub open spec fn spec_type_compatible(index: int, memory_type_bits: u32) -> bool {
    0 <= index < 32 && (memory_type_bits >> (index as u32)) & 1u32 == 1u32
}

/// Checks a memory type index against a driver-reported compatibility
/// bitmask: bit `index` of the mask must be set.
pub fn memory_type_is_compatible(memory_type_index: usize, memory_type_bits: u32) -> (r: bool)
    requires
        memory_type_index < 32,
    ensures
        r == spec_type_compatible(memory_type_index as int, memory_type_bits),
{
    let i = memory_type_index as u32;
    proof {
        assert(i < 32 ==> (((1u32 << i) & memory_type_bits != 0) <==> ((memory_type_bits >> i)
            & 1u32 == 1u32))) by (bit_vector);
    }
    (1u32 << i) & memory_type_bits != 0
}

/// The total of a per-pool measure over one lifetime's pools.
pub open spec fn pools_total(pools: Seq<MemoryPool>, f: spec_fn(MemoryPool) -> int) -> int
    decreases pools.len(),
{
    if pools.len() == 0 {
        0
    } else {
        pools_total(pools.drop_last(), f) + f(pools.last())
    }
}

/// The total of a per-pool measure over all lifetime tags.
pub open spec fn slots_total(slots: Seq<LifetimePools>, f: spec_fn(MemoryPool) -> int) -> int
    decreases slots.len(),
{
    if slots.len() == 0 {
        0
    } else {
        slots_total(slots.drop_last(), f) + pools_total(slots.last().pools@, f)
    }
}

/// Extending a prefix of pools by one adds that pool's measure.
pub proof fn lemma_pools_total_take_step(pools: Seq<MemoryPool>, f: spec_fn(MemoryPool) -> int, i: int)
    requires
        0 <= i < pools.len(),
    ensures
        pools_total(pools.take(i + 1), f) == pools_total(pools.take(i), f) + f(pools[i]),
{
    assert(pools.take(i + 1).drop_last() =~= pools.take(i));
}

/// Extending a prefix of lifetime slots by one adds that slot's total.
pub proof fn lemma_slots_total_take_step(
    slots: Seq<LifetimePools>,
    f: spec_fn(MemoryPool) -> int,
    i: int,
)
    requires
        0 <= i < slots.len(),
    ensures
        slots_total(slots.take(i + 1), f) == slots_total(slots.take(i), f) + pools_total(
            slots[i].pools@,
            f,
        ),
{
    assert(slots.take(i + 1).drop_last() =~= slots.take(i));
}

/// A non-negative per-pool measure has non-negative totals.
pub proof fn lemma_pools_total_nonneg(pools: Seq<MemoryPool>, f: spec_fn(MemoryPool) -> int)
    requires
        forall|p: MemoryPool| 0 <= #[trigger] f(p),
    ensures
        0 <= pools_total(pools, f),
    decreases pools.len(),
{
    if pools.len() > 0 {
        lemma_pools_total_nonneg(pools.drop_last(), f);
    }
}

/// A non-negative per-pool measure has non-negative totals.
pub proof fn lemma_slots_total_nonneg(slots: Seq<LifetimePools>, f: spec_fn(MemoryPool) -> int)
    requires
        forall|p: MemoryPool| 0 <= #[trigger] f(p),
    ensures
        0 <= slots_total(slots, f),
    decreases slots.len(),
{
    if slots.len() > 0 {
        lemma_slots_total_nonneg(slots.drop_last(), f);
        lemma_pools_total_nonneg(slots.last().pools@, f);
    }
}

/// The general purpose memory allocator: a segregated-list, best-fit
/// sub-allocator over caller-provided device memory blocks.
#[derive(Debug)]
pub struct Allocator {
    /// The driver identifier the device reported.
    pub driver_id: u32,
    /// Whether the device is an integrated GPU.
    pub is_integrated: bool,
    /// Size in bytes of every non-dedicated block.
    pub block_size: u64,
    /// The page-like granularity at which linear and optimal resources may
    /// not share memory.
    pub buffer_image_granularity: u64,
    /// The device's memory types, in the device's order.
    pub memory_types: Vec<MemoryTypeInfo>,
    /// Pools, one set per lifetime tag seen so far.
    pub pools: Vec<LifetimePools>,
}

impl Allocator {
    /// Whether the memory type at `m` must be mapped for host access.
    pub open spec fn type_mappable(&self, m: int) -> bool {
        self.memory_types@[m].property_flags & MEMORY_PROPERTY_HOST_VISIBLE != 0
    }

    /// Whether the memory type at `i` is compatible with the request's
    /// bitmask and has all the given property flags.
    pub open spec fn type_matches(&self, i: int, memory_type_bits: u32, flags: u32) -> bool {
        &&& spec_type_compatible(i, memory_type_bits)
        &&& self.memory_types@[i].property_flags & flags == flags
    }

    /// The first memory type from `i` on that matches, if any.
    pub open spec fn first_match_from(&self, i: int, memory_type_bits: u32, flags: u32) -> Option<
        int,
    >
        decreases self.memory_types@.len() - i,
        when 0 <= i
    {
        if i >= self.memory_types@.len() {
            None
        } else if self.type_matches(i, memory_type_bits, flags) {
            Some(i)
        } else {
            self.first_match_from(i + 1, memory_type_bits, flags)
        }
    }

    /// The first matching memory type, in the device's order.
    pub open spec fn first_match(&self, memory_type_bits: u32, flags: u32) -> Option<int> {
        self.first_match_from(0, memory_type_bits, flags)
    }

    /// The memory type index `find_memory_type_index` resolves, if any:
    /// the first type matching the preferred flags, else the first
    /// matching the fallback flags.
    pub open spec fn resolved_type(&self, location: MemoryLocation, memory_type_bits: u32) -> Option<
        int,
    > {
        let pf = preferred_flags(location, uses_unified_memory(self.driver_id, self.is_integrated));
        match self.first_match(memory_type_bits, pf) {
            Some(i) => Some(i),
            None => self.first_match(memory_type_bits, fallback_flags(location)),
        }
    }

    /// The slot of the given lifetime tag in `pools`, if present.
    pub open spec fn slot_of_from(&self, i: int, lifetime: usize) -> Option<int>
        decreases self.pools@.len() - i,
        when 0 <= i
    {
        if i >= self.pools@.len() {
            None
        } else if self.pools@[i].lifetime == lifetime {
            Some(i)
        } else {
            self.slot_of_from(i + 1, lifetime)
        }
    }

    /// The slot of the given lifetime tag, if its pools exist already.
    pub open spec fn slot_of(&self, lifetime: usize) -> Option<int> {
        self.slot_of_from(0, lifetime)
    }

    /// The pool serving one (lifetime slot, memory type) pair.
    pub open spec fn pool_at(&self, s: int, m: int) -> MemoryPool {
        self.pools@[s].pools@[m]
    }

    /// The allocator invariant: sound configuration, and every pool well
    /// formed, sized to the fixed block size, and placed under its own
    /// memory type with the right mappability.
    pub open spec fn wf(&self) -> bool {
        &&& 256 <= self.block_size <= 0x8000_0000_0000_0000u64
        &&& is_pow2(self.buffer_image_granularity)
        &&& self.memory_types@.len() <= 32
        &&& forall|s: int|
            0 <= s < self.pools@.len() ==> (#[trigger] self.pools@[s]).pools@.len()
                == self.memory_types@.len()
        &&& forall|s: int, m: int|
            0 <= s < self.pools@.len() && 0 <= m < self.pools@[s].pools@.len() ==> {
                let p = #[trigger] self.pool_at(s, m);
                &&& p.wf()
                &&& p.block_size == self.block_size
                &&& p.memory_type_index == m
                &&& p.is_mappable == self.type_mappable(m)
            }
        &&& forall|s1: int, s2: int|
            0 <= s1 < s2 < self.pools@.len() ==> (#[trigger] self.pools@[s1]).lifetime != (
            #[trigger] self.pools@[s2]).lifetime
    }

    /// Creates a new allocator for a device with the given driver
    /// identity, buffer-image granularity and memory types.
    ///
    /// Fails with `NoCompatibleMemoryTypeFound` when the device reports no
    /// memory types at all.
    pub fn new(
        driver_id: u32,
        is_integrated: bool,
        buffer_image_granularity: u64,
        memory_types: Vec<MemoryTypeInfo>,
        descriptor: &AllocatorDescriptor,
    ) -> (r: Result<Allocator, AllocatorError>)
        requires
            is_pow2(buffer_image_granularity),
            9 <= descriptor.block_size <= 63,
            memory_types@.len() <= 32,
        ensures
            r is Err <==> memory_types@.len() == 0,
            r is Err ==> r == Err::<Allocator, AllocatorError>(
                AllocatorError::NoCompatibleMemoryTypeFound,
            ),
            r matches Ok(a) ==> {
                &&& a.wf()
                &&& a.driver_id == driver_id
                &&& a.is_integrated == is_integrated
                &&& a.buffer_image_granularity == buffer_image_granularity
                &&& a.memory_types == memory_types
                &&& a.block_size == (1u64 << descriptor.block_size as u64)
                &&& a.pools@.len() == 0
            },
    {
        if memory_types.is_empty() {
            return Err(AllocatorError::NoCompatibleMemoryTypeFound);
        }
        let block_size = 1u64 << (descriptor.block_size as u64);
        proof {
            let e = descriptor.block_size as u64;
            assert(9 <= e <= 63 ==> 256 <= (1u64 << e) <= 0x8000_0000_0000_0000u64)
                by (bit_vector);
        }
        Ok(
            Allocator {
                driver_id,
                is_integrated,
                block_size,
                buffer_image_granularity,
                memory_types,
                pools: Vec::new(),
            },
        )
    }

    /// Finds the first memory type compatible with the bitmask that has
    /// all the given property flags, in the device's order.
    fn query_memory_type_index(&self, memory_type_bits: u32, memory_property_flags: u32) -> (r:
        Option<usize>)
        requires
            self.memory_types@.len() <= 32,
        ensures
            match r {
                Some(i) => self.first_match(memory_type_bits, memory_property_flags) == Some(
                    i as int,
                ) && i < self.memory_types@.len(),
                None => self.first_match(memory_type_bits, memory_property_flags) is None,
            },
    {
        let n = self.memory_types.len();
        let mut i: usize = 0;
        while i < n
            invariant
                n == self.memory_types@.len() <= 32,
                0 <= i <= n,
                self.first_match(memory_type_bits, memory_property_flags)
                    == self.first_match_from(i as int, memory_type_bits, memory_property_flags),
            decreases n - i,
        {
            let compatible = memory_type_is_compatible(i, memory_type_bits);
            let flags = self.memory_types[i].property_flags;
            if compatible && (flags & memory_property_flags) == memory_property_flags {
                return Some(i);
            }
            i = i + 1;
        }
        None
    }

    /// Resolves the memory type for a request: the first type matching the
    /// location's preferred flags — relaxed on unified-memory drivers — and
    /// failing that, the first matching the location's minimal fallback
    /// flags.
    ///
    /// Fails with `NoCompatibleMemoryTypeFound` exactly when no type
    /// matches even the fallback.
    pub fn find_memory_type_index(&self, location: MemoryLocation, memory_type_bits: u32) -> (r:
        Result<usize, AllocatorError>)
        requires
            self.memory_types@.len() <= 32,
        ensures
            match r {
                Ok(i) => self.resolved_type(location, memory_type_bits) == Some(i as int) && i
                    < self.memory_types@.len(),
                Err(e) => self.resolved_type(location, memory_type_bits) is None && e
                    == AllocatorError::NoCompatibleMemoryTypeFound,
            },
    {
        // The AMD APU main memory heap is not device-local, so asking for
        // device-local memory there would find nothing.
        let unified = (self.driver_id == DRIVER_ID_AMD_PROPRIETARY || self.driver_id
            == DRIVER_ID_AMD_OPEN_SOURCE || self.driver_id == DRIVER_ID_MESA_RADV)
            && self.is_integrated;
        let memory_property_flags = if unified {
            match location {
                MemoryLocation::GpuOnly => MEMORY_PROPERTY_HOST_VISIBLE
                    | MEMORY_PROPERTY_HOST_COHERENT,
                MemoryLocation::CpuToGpu => MEMORY_PROPERTY_DEVICE_LOCAL
                    | MEMORY_PROPERTY_HOST_VISIBLE | MEMORY_PROPERTY_HOST_COHERENT,
                MemoryLocation::GpuToCpu => MEMORY_PROPERTY_HOST_VISIBLE
                    | MEMORY_PROPERTY_HOST_COHERENT | MEMORY_PROPERTY_HOST_CACHED,
            }
        } else {
            match location {
                MemoryLocation::GpuOnly => MEMORY_PROPERTY_DEVICE_LOCAL,
                MemoryLocation::CpuToGpu => MEMORY_PROPERTY_DEVICE_LOCAL
                    | MEMORY_PROPERTY_HOST_VISIBLE | MEMORY_PROPERTY_HOST_COHERENT,
                MemoryLocation::GpuToCpu => MEMORY_PROPERTY_HOST_VISIBLE
                    | MEMORY_PROPERTY_HOST_COHERENT | MEMORY_PROPERTY_HOST_CACHED,
            }
        };
        if let Some(index) = self.query_memory_type_index(memory_type_bits, memory_property_flags) {
            return Ok(index);
        }
        // Fallback for drivers that do not expose a base address register.
        let memory_property_flags = match location {
            MemoryLocation::GpuOnly => MEMORY_PROPERTY_DEVICE_LOCAL,
            MemoryLocation::CpuToGpu => MEMORY_PROPERTY_HOST_VISIBLE
                | MEMORY_PROPERTY_HOST_COHERENT,
            MemoryLocation::GpuToCpu => MEMORY_PROPERTY_HOST_VISIBLE
                | MEMORY_PROPERTY_HOST_COHERENT | MEMORY_PROPERTY_HOST_CACHED,
        };
        match self.query_memory_type_index(memory_type_bits, memory_property_flags) {
            Some(index) => Ok(index),
            None => Err(AllocatorError::NoCompatibleMemoryTypeFound),
        }
    }

    /// Makes sure the lifetime tag has its pools: on the tag's first
    /// request, one empty pool is created eagerly for every memory type.
    fn ensure_lifetime_pools(&mut self, lifetime: usize)
        requires
            old(self).wf(),
        ensures
            final(self).wf(),
            final(self).slot_of(lifetime) is Some,
            final(self).driver_id == old(self).driver_id,
            final(self).is_integrated == old(self).is_integrated,
            final(self).block_size == old(self).block_size,
            final(self).buffer_image_granularity == old(self).buffer_image_granularity,
            final(self).memory_types == old(self).memory_types,
            old(self).slot_of(lifetime) is Some ==> *final(self) == *old(self),
            old(self).slot_of(lifetime) is None ==> {
                &&& final(self).pools@.len() == old(self).pools@.len() + 1
                &&& forall|s: int|
                    0 <= s < old(self).pools@.len() ==> final(self).pools@[s] == old(self).pools@[s]
                &&& final(self).slot_of(lifetime) == Some(old(self).pools@.len() as int)
                &&& final(self).pools@.last().lifetime == lifetime
                &&& forall|m: int|
                    0 <= m < final(self).memory_types@.len() ==> {
                        let p = #[trigger] final(self).pools@.last().pools@[m];
                        &&& p.chunks@.len() == 0
                        &&& p.blocks@.len() == 0
                        &&& p.spec_used_bytes() == 0
                        &&& p.spec_unused_bytes() == 0
                        &&& p.spec_allocation_count() == 0
                        &&& p.spec_block_count() == 0
                        &&& p.spec_unused_range_count() == 0
                    }
            },
    {
        let n = self.pools.len();
        let mut s: usize = 0;
        while s < n
            invariant
                *self == *old(self),
                old(self).wf(),
                n == self.pools@.len(),
                0 <= s <= n,
                self.slot_of(lifetime) == self.slot_of_from(s as int, lifetime),
            decreases n - s,
        {
            if self.pools[s].lifetime == lifetime {
                return ;
            }
            s = s + 1;
        }
        let ghost s0 = *old(self);
        let mt_count = self.memory_types.len();
        let mut fresh: Vec<MemoryPool> = Vec::new();
        let mut m: usize = 0;
        while m < mt_count
            invariant
                *self == s0,
                s0.wf(),
                mt_count == self.memory_types@.len(),
                0 <= m <= mt_count,
                fresh@.len() == m,
                forall|m2: int|
                    0 <= m2 < m ==> {
                        let p = #[trigger] fresh@[m2];
                        &&& p.wf()
                        &&& p.block_size == self.block_size
                        &&& p.memory_type_index == m2
                        &&& p.is_mappable == self.type_mappable(m2)
                        &&& p.chunks@.len() == 0
                        &&& p.blocks@.len() == 0
                        &&& p.spec_used_bytes() == 0
                        &&& p.spec_unused_bytes() == 0
                        &&& p.spec_allocation_count() == 0
                        &&& p.spec_block_count() == 0
                        &&& p.spec_unused_range_count() == 0
                    },
            decreases mt_count - m,
        {
            let mappable = self.memory_types[m].property_flags & MEMORY_PROPERTY_HOST_VISIBLE != 0;
            let pool = MemoryPool::new(self.block_size, m as u32, mappable);
            fresh.push(pool);
            m = m + 1;
        }
        self.pools.push(LifetimePools { lifetime, pools: fresh });
        proof {
            let s2 = *self;
            assert(s2.pools@.drop_last() =~= s0.pools@);
            lemma_slot_of_extends(s0, s2, lifetime);
            assert forall|st: int| 0 <= st < s2.pools@.len() implies (
            #[trigger] s2.pools@[st]).pools@.len() == s2.memory_types@.len() by {
                if st < s0.pools@.len() {
                    assert(s2.pools@[st] == s0.pools@[st]);
                }
            }
            assert forall|st: int, mt: int|
                0 <= st < s2.pools@.len() && 0 <= mt < s2.pools@[st].pools@.len() implies {
                let p = #[trigger] s2.pool_at(st, mt);
                &&& p.wf()
                &&& p.block_size == s2.block_size
                &&& p.memory_type_index == mt
                &&& p.is_mappable == s2.type_mappable(mt)
            } by {
                if st < s0.pools@.len() {
                    assert(s2.pool_at(st, mt) == s0.pool_at(st, mt));
                    assert(s0.pools@[st].pools@.len() == s0.memory_types@.len());
                }
            }
            assert forall|s1: int, sx: int|
                0 <= s1 < sx < s2.pools@.len() implies (#[trigger] s2.pools@[s1]).lifetime != (
            #[trigger] s2.pools@[sx]).lifetime by {
                if sx == s2.pools@.len() - 1 {
                    lemma_slot_of_none_means_absent(s0, lifetime, s1);
                } else {
                    assert(s2.pools@[s1] == s0.pools@[s1]);
                    assert(s2.pools@[sx] == s0.pools@[sx]);
                }
            }
            assert(256 <= s2.block_size <= 0x8000_0000_0000_0000u64);
            assert(is_pow2(s2.buffer_image_granularity));
            assert(s2.memory_types@.len() <= 32);
            assert(s2.wf());
        }
    }

    /// Takes one allocation request as far as the existing pools can: the
    /// request is validated, a memory type resolved, the lifetime's pools
    /// created if absent, and either an existing free chunk is granted
    /// (`Done`) or the step says exactly which device memory the caller
    /// must obtain to finish the request.
    ///
    /// Fails with `InvalidAlignment` exactly when the size is zero or the
    /// alignment is not a power of two, and with
    /// `NoCompatibleMemoryTypeFound` exactly when no memory type matches
    /// even the fallback flags. A dedicated step is answered exactly when
    /// the request asks for one or its size reaches the block size.
    pub fn allocate(&mut self, descriptor: &AllocationDescriptor) -> (r: Result<
        AllocateStep,
        AllocatorError,
    >)
        requires
            old(self).wf(),
        ensures
            final(self).wf(),
            final(self).driver_id == old(self).driver_id,
            final(self).is_integrated == old(self).is_integrated,
            final(self).block_size == old(self).block_size,
            final(self).buffer_image_granularity == old(self).buffer_image_granularity,
            final(self).memory_types == old(self).memory_types,
            r is Err ==> *final(self) == *old(self),
            r == Err::<AllocateStep, AllocatorError>(AllocatorError::InvalidAlignment) <==> (
            descriptor.size == 0 || !is_pow2(descriptor.alignment)),
            r is Ok <==> (descriptor.size != 0 && is_pow2(descriptor.alignment) && old(self).resolved_type(descriptor.location, descriptor.memory_type_bits) is Some),
            r == Err::<AllocateStep, AllocatorError>(AllocatorError::NoCompatibleMemoryTypeFound)
                <==> (descriptor.size != 0 && is_pow2(descriptor.alignment) && old(self).resolved_type(descriptor.location, descriptor.memory_type_bits) is None),
            r is Ok ==> final(self).slot_of(descriptor.lifetime) is Some,
            r matches Ok(step) ==> {
                let mt = old(self).resolved_type(descriptor.location, descriptor.memory_type_bits)->0;
                &&& 0 <= mt < old(self).memory_types@.len()
                &&& match step {
                    AllocateStep::Done(a) => {
                        let s = old(self).slot_of(descriptor.lifetime)->0;
                        let old_pool = old(self).pool_at(s, mt);
                        let ct = request_chunk_type(descriptor.is_optimal);
                        &&& !descriptor.is_dedicated
                        &&& descriptor.size < old(self).block_size
                        &&& old(self).slot_of(descriptor.lifetime) is Some
                        &&& a.chunk_key is Some
                        &&& exists|b: int|
                            old_pool.chooses_best_fit(
                                a.chunk_key->0 as int,
                                b,
                                descriptor.size as int,
                                descriptor.alignment as int,
                                old(self).buffer_image_granularity as int,
                                ct,
                            )
                        &&& a.offset == old_pool.cand_offset(
                            a.chunk_key->0 as int,
                            descriptor.alignment as int,
                            old(self).buffer_image_granularity as int,
                            ct,
                        )
                        &&& a.size == descriptor.size
                        &&& a.lifetime == descriptor.lifetime
                        &&& a.memory_type_index == mt
                        &&& a.offset + a.size <= old(self).block_size
                        &&& final(self).slot_of(descriptor.lifetime) == Some(s)
                        &&& final(self).pools@.len() == old(self).pools@.len()
                        &&& forall|s2: int|
                            0 <= s2 < old(self).pools@.len() && s2 != s ==> final(self).pools@[s2] == old(self).pools@[s2]
                        &&& forall|m2: int|
                            0 <= m2 < old(self).pools@[s].pools@.len() && m2 != mt ==> final(self).pool_at(s, m2) == old(self).pool_at(s, m2)
                        &&& ({
                            let reserved = a.offset - old_pool.chunk_at(
                                a.chunk_key->0 as int,
                            ).offset + a.size;
                            let new_pool = final(self).pool_at(s, mt);
                            &&& new_pool.spec_used_bytes() == old_pool.spec_used_bytes()
                                + reserved
                            &&& new_pool.spec_unused_bytes() == old_pool.spec_unused_bytes()
                                - reserved
                            &&& new_pool.spec_allocation_count()
                                == old_pool.spec_allocation_count() + 1
                            &&& new_pool.spec_block_count() == old_pool.spec_block_count()
                        })
                    },
                    AllocateStep::NeedsBlock { memory_type_index, size, mappable } => {
                        &&& !descriptor.is_dedicated
                        &&& descriptor.size != 0
                        &&& descriptor.size < old(self).block_size
                        &&& memory_type_index == mt
                        &&& size == old(self).block_size
                        &&& mappable == old(self).type_mappable(mt)
                        &&& (old(self).slot_of(descriptor.lifetime) matches Some(s) ==> !old(self).pool_at(s, mt).has_whole_free_block() && (forall|b: int|
                            crate::bucket::bucket_of(descriptor.size as int) <= b < old(self).pool_at(s, mt).free_chunks@.len() ==> !(#[trigger] old(self).pool_at(
                                s,
                                mt,
                            ).bucket_has_fit(
                                b,
                                descriptor.size as int,
                                descriptor.alignment as int,
                                old(self).buffer_image_granularity as int,
                                request_chunk_type(descriptor.is_optimal),
                            ))))
                    },
                    AllocateStep::NeedsDedicatedBlock { memory_type_index, size, mappable } => {
                        &&& (descriptor.is_dedicated || descriptor.size >= old(self).block_size)
                        &&& memory_type_index == mt
                        &&& size == descriptor.size
                        &&& 1 <= size
                        &&& mappable == old(self).type_mappable(mt)
                    },
                }
                &&& (step is NeedsDedicatedBlock <==> (descriptor.is_dedicated || descriptor.size
                    >= old(self).block_size))
                &&& (step is NeedsBlock || step is NeedsDedicatedBlock ==> {
                    &&& (final(self).pools@.len() == old(self).pools@.len() || final(self).pools@.len() == old(self).pools@.len() + 1)
                    &&& (forall|s2: int|
                        0 <= s2 < old(self).pools@.len() ==> (
                        #[trigger] final(self).pools@[s2]).lifetime == old(self).pools@[s2].lifetime && final(self).pools@[s2].pools@.len() == old(self).pools@[s2].pools@.len())
                    &&& (forall|s2: int, m2: int|
                        0 <= s2 < old(self).pools@.len() && 0 <= m2 < old(self).pools@[s2].pools@.len() ==> #[trigger] final(self).pool_at(s2, m2)
                            == old(self).pool_at(s2, m2))
                })
            },
    {
        if descriptor.size == 0 || !crate::math::is_power_of_two(descriptor.alignment) {
            return Err(AllocatorError::InvalidAlignment);
        }
        let memory_type_index = match self.find_memory_type_index(
            descriptor.location,
            descriptor.memory_type_bits,
        ) {
            Ok(i) => i,
            Err(e) => {
                return Err(e);
            },
        };
        let ghost s0 = *old(self);
        self.ensure_lifetime_pools(descriptor.lifetime);
        let ghost s1 = *self;
        let mappable = self.memory_types[memory_type_index].property_flags
            & MEMORY_PROPERTY_HOST_VISIBLE != 0;
        if descriptor.is_dedicated || descriptor.size >= self.block_size {
            return Ok(
                AllocateStep::NeedsDedicatedBlock {
                    memory_type_index,
                    size: descriptor.size,
                    mappable,
                },
            );
        }
        let slot = match self.find_lifetime_slot(descriptor.lifetime) {
            Some(slot) => slot,
            None => {
                proof {
                    assert(false);
                }
                return Err(AllocatorError::Internal);
            },
        };
        proof {
            assert(s1.pool_at(slot as int, memory_type_index as int).wf());
            if s0.slot_of(descriptor.lifetime) is Some {
                assert(s1 == s0);
            }
        }
        let granularity = self.buffer_image_granularity;
        let result = self.pools[slot].pools[memory_type_index].try_allocate(
            granularity,
            descriptor.size,
            descriptor.alignment,
            descriptor.lifetime,
            descriptor.is_optimal,
        );
        proof {
            let s2 = *self;
            let mt = memory_type_index as int;
            let st = slot as int;
            assert(s2.pools@.len() == s1.pools@.len());
            assert(s2.pools@[st].lifetime == s1.pools@[st].lifetime);
            assert(forall|x: int|
                0 <= x < s2.pools@.len() && x != st ==> s2.pools@[x] == s1.pools@[x]);
            assert(s2.pools@[st].pools@.len() == s1.pools@[st].pools@.len());
            assert(forall|m2: int|
                0 <= m2 < s2.pools@[st].pools@.len() && m2 != mt ==> s2.pool_at(st, m2)
                    == s1.pool_at(st, m2));
            lemma_slot_of_same(s1, s2, descriptor.lifetime);
            assert forall|x: int| 0 <= x < s2.pools@.len() implies (
            #[trigger] s2.pools@[x]).pools@.len() == s2.memory_types@.len() by {
                if x != st {
                    assert(s2.pools@[x] == s1.pools@[x]);
                }
                assert(s1.pools@[x].pools@.len() == s1.memory_types@.len());
            }
            assert forall|x: int, m2: int|
                0 <= x < s2.pools@.len() && 0 <= m2 < s2.pools@[x].pools@.len() implies {
                let p = #[trigger] s2.pool_at(x, m2);
                &&& p.wf()
                &&& p.block_size == s2.block_size
                &&& p.memory_type_index == m2
                &&& p.is_mappable == s2.type_mappable(m2)
            } by {
                if x == st && m2 == mt {
                } else if x == st {
                    assert(s2.pool_at(x, m2) == s1.pool_at(x, m2));
                    assert(s1.pool_at(x, m2).wf());
                } else {
                    assert(s2.pools@[x] == s1.pools@[x]);
                    assert(s1.pool_at(x, m2).wf());
                }
            }
            assert forall|x1: int, x2: int|
                0 <= x1 < x2 < s2.pools@.len() implies (#[trigger] s2.pools@[x1]).lifetime != (
            #[trigger] s2.pools@[x2]).lifetime by {
                assert(s2.pools@[x1].lifetime == s1.pools@[x1].lifetime);
                assert(s2.pools@[x2].lifetime == s1.pools@[x2].lifetime);
            }
            if result is Some {
                if s0.slot_of(descriptor.lifetime) is None {
                    let a = result->0;
                    assert(s1.pools@[st] == s1.pools@.last());
                    assert(s1.pool_at(st, mt).chunks@.len() == 0);
                    let b = choose|b: int|
                        s1.pool_at(st, mt).chooses_best_fit(
                            a.chunk_key->0 as int,
                            b,
                            descriptor.size as int,
                            descriptor.alignment as int,
                            granularity as int,
                            request_chunk_type(descriptor.is_optimal),
                        );
                    assert(s1.pool_at(st, mt).cand_fits(
                        a.chunk_key->0 as int,
                        descriptor.size as int,
                        descriptor.alignment as int,
                        granularity as int,
                        request_chunk_type(descriptor.is_optimal),
                    ));
                    assert(false);
                }
                assert(s1 == s0);
                assert(s0.slot_of(descriptor.lifetime) == Some(st));
            }
        }
        match result {
            Some(a) => Ok(AllocateStep::Done(a)),
            None => Ok(
                AllocateStep::NeedsBlock {
                    memory_type_index,
                    size: self.block_size,
                    mappable,
                },
            ),
        }
    }

    /// Completes a request the pools had no room for, with the one fresh
    /// block `allocate` asked for: the block joins the lifetime's pool for
    /// the memory type as a single free chunk, and the request is served
    /// from it. With a whole block free and the request at most one block
    /// large, this cannot fail; and when the pool indeed had no fit
    /// anywhere, the request lands at the very start of the new block.
    ///
    /// `device_memory` is the raw handle of a fresh device reservation of
    /// exactly the pool's block size; `mapped_base` is its mapped base
    /// address when the memory type is host-visible.
    #[verifier::rlimit(100)]
    pub fn finish_allocate_grown(
        &mut self,
        lifetime: usize,
        memory_type_index: usize,
        device_memory: u64,
        mapped_base: Option<u64>,
        size: u64,
        alignment: u64,
        is_optimal: bool,
    ) -> (a: Allocation)
        requires
            old(self).wf(),
            old(self).slot_of(lifetime) is Some,
            memory_type_index < old(self).memory_types@.len(),
            1 <= size <= old(self).block_size,
            is_pow2(alignment),
            mapped_base is Some <==> old(self).type_mappable(memory_type_index as int),
            mapped_base is Some ==> mapped_base->0 + old(self).block_size <= u64::MAX,
        ensures
            final(self).wf(),
            final(self).driver_id == old(self).driver_id,
            final(self).is_integrated == old(self).is_integrated,
            final(self).block_size == old(self).block_size,
            final(self).buffer_image_granularity == old(self).buffer_image_granularity,
            final(self).memory_types == old(self).memory_types,
            final(self).pools@.len() == old(self).pools@.len(),
            final(self).slot_of(lifetime) == old(self).slot_of(lifetime),
            a.size == size,
            a.lifetime == lifetime,
            a.memory_type_index == memory_type_index,
            a.chunk_key is Some,
            a.offset + a.size <= old(self).block_size,
            ({
                let s = old(self).slot_of(lifetime)->0;
                let mt = memory_type_index as int;
                &&& forall|s2: int|
                    0 <= s2 < old(self).pools@.len() && s2 != s ==> final(self).pools@[s2] == old(self).pools@[s2]
                &&& forall|m2: int|
                    0 <= m2 < old(self).pools@[s].pools@.len() && m2 != mt ==> final(self).pool_at(
                        s,
                        m2,
                    ) == old(self).pool_at(s, m2)
                &&& final(self).pool_at(s, mt).spec_block_count() == old(self).pool_at(
                    s,
                    mt,
                ).spec_block_count() + 1
                &&& final(self).pool_at(s, mt).spec_allocation_count() == old(self).pool_at(
                    s,
                    mt,
                ).spec_allocation_count() + 1
                &&& ({
                    let k = a.chunk_key->0 as int;
                    let old_pool = old(self).pool_at(s, mt);
                    let new_pool = final(self).pool_at(s, mt);
                    &&& new_pool.chunk_live(k)
                    &&& new_pool.chunk_at(k).chunk_type == request_chunk_type(is_optimal)
                    &&& new_pool.chunk_at(k).block_key == a.block_key
                    &&& new_pool.block_live(a.block_key as int)
                    &&& new_pool.block_at(a.block_key as int).device_memory == a.device_memory
                    &&& a.mapped_ptr == (match new_pool.block_at(a.block_key as int).mapped_base {
                        Some(base) => Some((base + a.offset) as u64),
                        None => None,
                    })
                    &&& a.offset + a.size == new_pool.chunk_at(k).offset + new_pool.chunk_at(
                        k,
                    ).size
                    &&& new_pool.spec_used_bytes() == old_pool.spec_used_bytes()
                        + new_pool.chunk_at(k).size
                    &&& new_pool.spec_unused_bytes() == old_pool.spec_unused_bytes() + old(self).block_size - new_pool.chunk_at(k).size
                    &&& ((forall|b: int|
                        crate::bucket::bucket_of(size as int) <= b
                            < old_pool.free_chunks@.len() ==> !(#[trigger] old_pool.bucket_has_fit(
                            b,
                            size as int,
                            alignment as int,
                            old(self).buffer_image_granularity as int,
                            request_chunk_type(is_optimal),
                        ))) ==> {
                        &&& a.offset == 0
                        &&& a.device_memory == device_memory
                        &&& a.mapped_ptr == mapped_base
                        &&& new_pool.chunk_at(k).offset == 0
                        &&& new_pool.chunk_at(k).size == size
                    })
                })
            }),
    {
        let slot = match self.find_lifetime_slot(lifetime) {
            Some(slot) => slot,
            None => {
                proof {
                    assert(false);
                }
                return vstd::pervasive::unreached();
            },
        };
        let ghost s1 = *self;
        proof {
            assert(s1.pool_at(slot as int, memory_type_index as int).wf());
        }
        let new_block_key = self.pools[slot].pools[memory_type_index].allocate_new_block(
            device_memory,
            mapped_base,
        );
        let ghost sa = *self;
        let granularity = self.buffer_image_granularity;
        let result = self.pools[slot].pools[memory_type_index].try_allocate(
            granularity,
            size,
            alignment,
            lifetime,
            is_optimal,
        );
        proof {
            let st = slot as int;
            let mt = memory_type_index as int;
            let s2 = *self;
            lemma_allocator_wf_after_pool_update(s1, sa, st, mt);
            lemma_allocator_wf_after_pool_update(sa, s2, st, mt);
            lemma_slot_of_same(s1, sa, lifetime);
            lemma_slot_of_same(sa, s2, lifetime);
            lemma_slot_of_unique(s1, lifetime, st);
            if result is None {
                assert(!sa.pool_at(st, mt).has_whole_free_block());
                assert(false);
            }
            assert(forall|s2x: int|
                0 <= s2x < s1.pools@.len() && s2x != st ==> s2.pools@[s2x] == s1.pools@[s2x]);
            assert(forall|m2: int|
                0 <= m2 < s1.pools@[st].pools@.len() && m2 != mt ==> s2.pool_at(st, m2)
                    == s1.pool_at(st, m2));
            // When the old pool had no fit anywhere, the chosen chunk can
            // only be the fresh whole-block chunk, so the request lands at
            // the start of the new block.
            let ct = request_chunk_type(is_optimal);
            let sz = size as int;
            let al = alignment as int;
            let gr = granularity as int;
            let s1p = s1.pool_at(st, mt);
            let sap = sa.pool_at(st, mt);
            if forall|b: int|
                crate::bucket::bucket_of(sz) <= b < s1p.free_chunks@.len() ==> !(
                #[trigger] s1p.bucket_has_fit(b, sz, al, gr, ct)) {
                let a = result->0;
                let k = a.chunk_key->0 as int;
                let b0 = choose|b: int| sap.chooses_best_fit(k, b, sz, al, gr, ct);
                assert(sap.cand_fits(k, sz, al, gr, ct));
                assert(sap.chunk_live(k)) by {
                    let j = choose|j: int|
                        0 <= j < sap.free_chunks@[b0]@.len() && #[trigger] sap.fl_at(b0, j) == k;
                    assert(sap.in_fl(b0, j));
                }
                lemma_pow2_bounds(alignment);
                lemma_pow2_bounds(granularity);
                if live_at(s1p.chunks@, k) {
                    assert(sap.chunks@[k] == s1p.chunks@[k]);
                    assert(s1p.chunk_live(k));
                    assert(s1p.wf_chunk(k));
                    let ck = s1p.chunk_at(k);
                    match ck.previous {
                        Some(p) => {
                            assert(s1p.chunk_live(p as int));
                            assert(sap.chunks@[p as int] == s1p.chunks@[p as int]);
                        },
                        None => {},
                    }
                    match ck.next {
                        Some(n) => {
                            assert(s1p.chunk_live(n as int));
                            assert(sap.chunks@[n as int] == s1p.chunks@[n as int]);
                        },
                        None => {},
                    }
                    assert(sap.cand_offset(k, al, gr, ct) == s1p.cand_offset(k, al, gr, ct));
                    assert(s1p.cand_fits(k, sz, al, gr, ct));
                    assert(sap.chunk_at(k).chunk_type == ChunkType::Free) by {
                        let j = choose|j: int|
                            0 <= j < sap.free_chunks@[b0]@.len() && #[trigger] sap.fl_at(b0, j)
                                == k;
                        assert(sap.in_fl(b0, j));
                    }
                    assert(s1p.free_list_has(k));
                    let (bk2, jk2) = choose|b: int, j: int|
                        s1p.in_fl(b, j) && s1p.fl_at(b, j) == k;
                    assert(bk2 == crate::bucket::bucket_of(ck.size as int));
                    assert(sz <= ck.size) by {
                        crate::math::lemma_align_up_props(ck.offset as int, al);
                        crate::math::lemma_align_up_props(
                            crate::math::spec_align_up(ck.offset as int, al),
                            gr,
                        );
                        assert(ck.offset <= s1p.cand_offset(k, al, gr, ct));
                    }
                    crate::bucket::lemma_bucket_monotonic(sz, ck.size as int);
                    assert(s1p.bucket_has_fit(bk2, sz, al, gr, ct));
                    assert(false);
                }
                assert(sap.chunk_at(k) == (MemoryChunk {
                    block_key: new_block_key,
                    size: s1.block_size,
                    offset: 0,
                    previous: None,
                    next: None,
                    chunk_type: ChunkType::Free,
                }));
                crate::math::lemma_align_up_props(0, al);
                assert(sap.cand_offset(k, al, gr, ct) == 0);
                assert(a.offset == 0);
                assert(sap.block_at(new_block_key as int).device_memory == device_memory);
                assert(a.device_memory == device_memory);
            }
            // The granted chunk's block is live, so the handle's device
            // memory and mapped pointer are the block's.
            let aa = result->0;
            let kk = aa.chunk_key->0 as int;
            let s2p = s2.pool_at(st, mt);
            assert(s2p.blocks == sap.blocks);
            assert(s2p.block_live(aa.block_key as int)) by {
                let j = choose|b: int, j: int|
                    sap.in_fl(b, j) && #[trigger] sap.fl_at(b, j) == kk;
                assert(sap.chunk_live(kk)) by {
                    let b0 = choose|b: int| sap.chooses_best_fit(kk, b, sz, al, gr, ct);
                    let j0 = choose|j: int|
                        0 <= j < sap.free_chunks@[b0]@.len() && #[trigger] sap.fl_at(b0, j) == kk;
                    assert(sap.in_fl(b0, j0));
                }
                assert(sap.wf_chunk(kk));
                assert(sap.block_live(sap.chunk_at(kk).block_key as int));
            }
            // The accounting chains through the grow and the split.
            assert(s1p.block_size == s1.block_size);
            assert(s2p.spec_used_bytes() == s1p.spec_used_bytes() + s2p.chunk_at(kk).size);
            assert(s2p.spec_unused_bytes() == s1p.spec_unused_bytes() + s1.block_size
                - s2p.chunk_at(kk).size);
        }
        match result {
            Some(a) => a,
            None => vstd::pervasive::unreached(),
        }
    }

    /// Completes a dedicated request, with the block of exactly the
    /// request's size that `allocate` asked for. The block serves this one
    /// allocation and is never chunked; the handle's `chunk_key` is absent.
    ///
    /// `device_memory` is the raw handle of a fresh device reservation of
    /// exactly `size` bytes; `mapped_base` is its mapped base address when
    /// the memory type is host-visible.
    pub fn finish_allocate_dedicated(
        &mut self,
        lifetime: usize,
        memory_type_index: usize,
        device_memory: u64,
        size: u64,
        mapped_base: Option<u64>,
    ) -> (a: Allocation)
        requires
            old(self).wf(),
            old(self).slot_of(lifetime) is Some,
            memory_type_index < old(self).memory_types@.len(),
            1 <= size,
            mapped_base is Some <==> old(self).type_mappable(memory_type_index as int),
            mapped_base is Some ==> mapped_base->0 + size <= u64::MAX,
        ensures
            final(self).wf(),
            final(self).driver_id == old(self).driver_id,
            final(self).is_integrated == old(self).is_integrated,
            final(self).block_size == old(self).block_size,
            final(self).buffer_image_granularity == old(self).buffer_image_granularity,
            final(self).memory_types == old(self).memory_types,
            final(self).pools@.len() == old(self).pools@.len(),
            final(self).slot_of(lifetime) == old(self).slot_of(lifetime),
            a.chunk_key is None,
            a.offset == 0,
            a.size == size,
            a.device_memory == device_memory,
            a.mapped_ptr == mapped_base,
            a.lifetime == lifetime,
            a.memory_type_index == memory_type_index,
            ({
                let s = old(self).slot_of(lifetime)->0;
                let mt = memory_type_index as int;
                &&& forall|s2: int|
                    0 <= s2 < old(self).pools@.len() && s2 != s ==> final(self).pools@[s2] == old(self).pools@[s2]
                &&& forall|m2: int|
                    0 <= m2 < old(self).pools@[s].pools@.len() && m2 != mt ==> final(self).pool_at(
                        s,
                        m2,
                    ) == old(self).pool_at(s, m2)
                &&& final(self).pool_at(s, mt).block_live(a.block_key as int)
                &&& final(self).pool_at(s, mt).block_at(a.block_key as int) == (MemoryBlock {
                    device_memory,
                    size,
                    mapped_base,
                    is_dedicated: true,
                })
                &&& final(self).pool_at(s, mt).spec_used_bytes() == old(self).pool_at(
                    s,
                    mt,
                ).spec_used_bytes() + size
                &&& final(self).pool_at(s, mt).spec_allocation_count() == old(self).pool_at(
                    s,
                    mt,
                ).spec_allocation_count() + 1
                &&& final(self).pool_at(s, mt).spec_block_count() == old(self).pool_at(
                    s,
                    mt,
                ).spec_block_count() + 1
            }),
    {
        let slot = match self.find_lifetime_slot(lifetime) {
            Some(slot) => slot,
            None => {
                proof {
                    assert(false);
                }
                return vstd::pervasive::unreached();
            },
        };
        let ghost s1 = *self;
        proof {
            assert(s1.pool_at(slot as int, memory_type_index as int).wf());
        }
        let a = self.pools[slot].pools[memory_type_index].allocate_dedicated(
            device_memory,
            size,
            mapped_base,
            lifetime,
        );
        proof {
            let st = slot as int;
            let mt = memory_type_index as int;
            lemma_allocator_wf_after_pool_update(s1, *self, st, mt);
            lemma_slot_of_same(s1, *self, lifetime);
            lemma_slot_of_unique(s1, lifetime, st);
        }
        a
    }

    /// Frees the allocation: its chunk is freed and merged with free
    /// neighbours, or, for a dedicated allocation, its whole block leaves
    /// the pool and its record is handed back so the caller can release
    /// the device memory.
    ///
    /// Fails with `Internal` when the handle names a lifetime tag or
    /// memory type this allocator has no pool for, and with
    /// `CantFindChunk` or `CantFindBlock`, changing nothing, when the
    /// handle does not name a live allocation — so freeing the same handle
    /// twice is refused rather than corrupting the bookkeeping.
    pub fn deallocate(&mut self, allocation: &Allocation) -> (r: Result<
        DeallocateStep,
        AllocatorError,
    >)
        requires
            old(self).wf(),
        ensures
            final(self).wf(),
            final(self).driver_id == old(self).driver_id,
            final(self).is_integrated == old(self).is_integrated,
            final(self).block_size == old(self).block_size,
            final(self).buffer_image_granularity == old(self).buffer_image_granularity,
            final(self).memory_types == old(self).memory_types,
            r is Err ==> final(self).pools@.len() == old(self).pools@.len() && (forall|s2: int|
                0 <= s2 < old(self).pools@.len() ==> (#[trigger] final(self).pools@[s2]).lifetime
                    == old(self).pools@[s2].lifetime && final(self).pools@[s2].pools@.len() == old(self).pools@[s2].pools@.len()) && (forall|s2: int, m2: int|
                0 <= s2 < old(self).pools@.len() && 0 <= m2 < old(self).pools@[s2].pools@.len()
                    ==> #[trigger] final(self).pool_at(s2, m2) == old(self).pool_at(s2, m2)),
            r == Err::<DeallocateStep, AllocatorError>(AllocatorError::Internal) <==> (old(self).slot_of(allocation.lifetime) is None || allocation.memory_type_index as int >= old(self).memory_types@.len()),
            ({
                let routed = (old(self).slot_of(allocation.lifetime) is Some)
                    && (allocation.memory_type_index as int) < old(self).memory_types@.len();
                let s = old(self).slot_of(allocation.lifetime)->0;
                let mt = allocation.memory_type_index as int;
                let pool = old(self).pool_at(s, mt);
                &&& (r == Err::<DeallocateStep, AllocatorError>(AllocatorError::CantFindChunk)
                    <==> (routed && allocation.chunk_key is Some && !(pool.chunk_live(
                    allocation.chunk_key->0 as int,
                ) && pool.chunk_at(allocation.chunk_key->0 as int).chunk_type
                    != crate::types::ChunkType::Free)))
                &&& (r == Err::<DeallocateStep, AllocatorError>(AllocatorError::CantFindBlock)
                    <==> (routed && allocation.chunk_key is None && !(pool.block_live(
                    allocation.block_key as int,
                ) && pool.block_at(allocation.block_key as int).is_dedicated)))
                &&& (r is Ok && allocation.chunk_key is Some ==> r == Ok::<
                    DeallocateStep,
                    AllocatorError,
                >(DeallocateStep::Done) && {
                    let freed = pool.chunk_at(allocation.chunk_key->0 as int).size;
                    let new_pool = final(self).pool_at(s, mt);
                    &&& new_pool.spec_used_bytes() == pool.spec_used_bytes() - freed
                    &&& new_pool.spec_unused_bytes() == pool.spec_unused_bytes() + freed
                    &&& new_pool.spec_allocation_count() == pool.spec_allocation_count() - 1
                    &&& new_pool.spec_block_count() == pool.spec_block_count()
                })
                &&& (r is Ok && allocation.chunk_key is None ==> r == Ok::<
                    DeallocateStep,
                    AllocatorError,
                >(DeallocateStep::ReleaseBlock(pool.block_at(allocation.block_key as int))) && {
                    let blk = pool.block_at(allocation.block_key as int);
                    let new_pool = final(self).pool_at(s, mt);
                    &&& new_pool.spec_used_bytes() == pool.spec_used_bytes() - blk.size
                    &&& new_pool.spec_unused_bytes() == pool.spec_unused_bytes()
                    &&& new_pool.spec_allocation_count() == pool.spec_allocation_count() - 1
                    &&& new_pool.spec_block_count() == pool.spec_block_count() - 1
                })
                &&& (r is Ok <==> routed && (allocation.chunk_key is Some ==> pool.chunk_live(
                    allocation.chunk_key->0 as int,
                ) && pool.chunk_at(allocation.chunk_key->0 as int).chunk_type
                    != crate::types::ChunkType::Free) && (allocation.chunk_key is None
                    ==> pool.block_live(allocation.block_key as int) && pool.block_at(
                    allocation.block_key as int,
                ).is_dedicated))
                &&& (r is Ok ==> routed && final(self).pools@.len() == old(self).pools@.len()
                    && (forall|s2: int|
                    0 <= s2 < old(self).pools@.len() && s2 != s ==> final(self).pools@[s2] == old(self).pools@[s2]) && (forall|m2: int|
                    0 <= m2 < old(self).pools@[s].pools@.len() && m2 != mt ==> final(self).pool_at(
                        s,
                        m2,
                    ) == old(self).pool_at(s, m2)))
                &&& (r is Ok && allocation.chunk_key is Some ==> {
                    let freed_key = allocation.chunk_key->0 as int;
                    let new_pool = final(self).pool_at(s, mt);
                    &&& new_pool.blocks == pool.blocks
                    &&& (forall|i: int|
                        #[trigger] pool.chunk_live(i) && i != freed_key && pool.chunk_at(
                            i,
                        ).chunk_type != crate::types::ChunkType::Free ==> new_pool.chunk_live(i)
                            && new_pool.chunk_at(i).offset == pool.chunk_at(i).offset
                            && new_pool.chunk_at(i).size == pool.chunk_at(i).size
                            && new_pool.chunk_at(i).chunk_type == pool.chunk_at(i).chunk_type
                            && new_pool.chunk_at(i).block_key == pool.chunk_at(i).block_key)
                    &&& (!new_pool.chunk_live(freed_key) || new_pool.chunk_at(
                        freed_key,
                    ).chunk_type == crate::types::ChunkType::Free)
                })
                &&& (r is Ok && allocation.chunk_key is None ==> final(self).pool_at(
                    s,
                    mt,
                ).chunks == pool.chunks)
            }),
    {
        let slot = match self.find_lifetime_slot(allocation.lifetime) {
            Some(slot) => slot,
            None => {
                return Err(AllocatorError::Internal);
            },
        };
        let memory_type_index = allocation.memory_type_index as usize;
        if memory_type_index >= self.memory_types.len() {
            return Err(AllocatorError::Internal);
        }
        let ghost s1 = *self;
        proof {
            assert(s1.pool_at(slot as int, memory_type_index as int).wf());
            lemma_slot_of_unique(s1, allocation.lifetime, slot as int);
        }
        let outcome = match allocation.chunk_key {
            Some(chunk_key) => {
                match self.pools[slot].pools[memory_type_index].free_chunk(chunk_key) {
                    Ok(()) => Ok(DeallocateStep::Done),
                    Err(e) => Err(e),
                }
            },
            None => {
                match self.pools[slot].pools[memory_type_index].free_block(allocation.block_key) {
                    Ok(blk) => Ok(DeallocateStep::ReleaseBlock(blk)),
                    Err(e) => Err(e),
                }
            },
        };
        proof {
            let st = slot as int;
            let mt = memory_type_index as int;
            let s2 = *self;
            lemma_allocator_wf_after_pool_update(s1, s2, st, mt);
            lemma_slot_of_same(s1, s2, allocation.lifetime);
            if outcome is Err {
                assert(s2.pool_at(st, mt) == s1.pool_at(st, mt));
            }
        }
        outcome
    }

    /// Releases every pool: all pools of all lifetime tags are dropped,
    /// and the records of all their blocks are handed back so the caller
    /// can release the device memory. Must be called before the device
    /// itself goes away, after the caller has returned every allocation.
    pub fn cleanup(&mut self) -> (r: Vec<MemoryBlock>)
        requires
            old(self).wf(),
        ensures
            final(self).wf(),
            final(self).driver_id == old(self).driver_id,
            final(self).is_integrated == old(self).is_integrated,
            final(self).block_size == old(self).block_size,
            final(self).buffer_image_granularity == old(self).buffer_image_granularity,
            final(self).memory_types == old(self).memory_types,
            final(self).pools@.len() == 0,
            r@ == all_block_records(old(self).pools@),
    {
        let ghost s0 = *old(self);
        let mut out: Vec<MemoryBlock> = Vec::new();
        let n = self.pools.len();
        let mut s: usize = 0;
        proof {
            assert(s0.pools@.take(0) =~= Seq::<LifetimePools>::empty());
        }
        while s < n
            invariant
                s0.wf(),
                self.driver_id == s0.driver_id,
                self.is_integrated == s0.is_integrated,
                self.block_size == s0.block_size,
                self.buffer_image_granularity == s0.buffer_image_granularity,
                self.memory_types == s0.memory_types,
                n == self.pools@.len() == s0.pools@.len(),
                0 <= s <= n,
                forall|x: int| s <= x < n ==> self.pools@[x] == s0.pools@[x],
                forall|x: int|
                    0 <= x < n ==> (#[trigger] self.pools@[x]).pools@.len()
                        == s0.pools@[x].pools@.len(),
                out@ == all_block_records(s0.pools@.take(s as int)),
            decreases n - s,
        {
            proof {
                assert(s0.pools@.take(s + 1).drop_last() =~= s0.pools@.take(s as int));
                assert(s0.pools@.take(s + 1).last() == s0.pools@[s as int]);
            }
            let mt_count = self.pools[s].pools.len();
            let mut m: usize = 0;
            proof {
                assert(s0.pools@[s as int].pools@.take(0) =~= Seq::<MemoryPool>::empty());
            }
            while m < mt_count
                invariant
                    s0.wf(),
                    self.driver_id == s0.driver_id,
                    self.is_integrated == s0.is_integrated,
                    self.block_size == s0.block_size,
                    self.buffer_image_granularity == s0.buffer_image_granularity,
                    self.memory_types == s0.memory_types,
                    n == self.pools@.len() == s0.pools@.len(),
                    0 <= s < n,
                    mt_count == self.pools@[s as int].pools@.len() == s0.pools@[
                        s as int
                    ].pools@.len(),
                    0 <= m <= mt_count,
                    forall|x: int| s < x < n ==> self.pools@[x] == s0.pools@[x],
                    forall|x: int|
                        0 <= x < n ==> (#[trigger] self.pools@[x]).pools@.len()
                            == s0.pools@[x].pools@.len(),
                    forall|m2: int|
                        m <= m2 < mt_count ==> #[trigger] self.pools@[s as int].pools@[m2]
                            == s0.pools@[s as int].pools@[m2],
                    out@ == all_block_records(s0.pools@.take(s as int)) + slot_records(
                        s0.pools@[s as int].pools@.take(m as int),
                    ),
                decreases mt_count - m,
            {
                proof {
                    let pseq = s0.pools@[s as int].pools@;
                    assert(pseq.take(m + 1).drop_last() =~= pseq.take(m as int));
                    assert(pseq.take(m + 1).last() == pseq[m as int]);
                    assert(s0.pool_at(s as int, m as int).wf());
                }
                let mut blocks = self.pools[s].pools[m].cleanup();
                out.append(&mut blocks);
                m = m + 1;
            }
            proof {
                assert(s0.pools@[s as int].pools@.take(mt_count as int) =~= s0.pools@[
                    s as int
                ].pools@);
            }
            s = s + 1;
        }
        self.pools.clear();
        proof {
            assert(s0.pools@.take(n as int) =~= s0.pools@);
        }
        out
    }

    /// Number of live allocations across all pools, saturating at
    /// `usize::MAX`.
    pub fn allocation_count(&self) -> (r: usize)
        requires
            self.wf(),
        ensures
            r as int == crate::pool::sat_cap(
                slots_total(self.pools@, |p: MemoryPool| p.spec_allocation_count()),
                usize::MAX as int,
            ),
    {
        let ghost f = |p: MemoryPool| p.spec_allocation_count();
        proof {
            lemma_stat_nonneg(f);
        }
        let mut total: usize = 0;
        let n = self.pools.len();
        let mut s: usize = 0;
        while s < n
            invariant
                self.wf(),
                n == self.pools@.len(),
                0 <= s <= n,
                f == (|p: MemoryPool| p.spec_allocation_count()),
                forall|p: MemoryPool| 0 <= #[trigger] f(p),
                total as int == crate::pool::sat_cap(
                    slots_total(self.pools@.take(s as int), f),
                    usize::MAX as int,
                ),
            decreases n - s,
        {
            proof {
                lemma_slots_total_take_step(self.pools@, f, s as int);
                lemma_slots_total_nonneg(self.pools@.take(s as int), f);
                lemma_pools_total_nonneg(self.pools@[s as int].pools@, f);
            }
            let mt_count = self.pools[s].pools.len();
            let mut m: usize = 0;
            while m < mt_count
                invariant
                    self.wf(),
                    n == self.pools@.len(),
                    0 <= s < n,
                    mt_count == self.pools@[s as int].pools@.len(),
                    0 <= m <= mt_count,
                    f == (|p: MemoryPool| p.spec_allocation_count()),
                    forall|p: MemoryPool| 0 <= #[trigger] f(p),
                    total as int == crate::pool::sat_cap(
                        slots_total(self.pools@.take(s as int), f) + pools_total(
                            self.pools@[s as int].pools@.take(m as int),
                            f,
                        ),
                        usize::MAX as int,
                    ),
                decreases mt_count - m,
            {
                proof {
                    lemma_pools_total_take_step(self.pools@[s as int].pools@, f, m as int);
                    lemma_slots_total_nonneg(self.pools@.take(s as int), f);
                    lemma_pools_total_nonneg(
                        self.pools@[s as int].pools@.take(m as int),
                        f,
                    );
                    assert(self.pool_at(s as int, m as int).wf());
                }
                let c = self.pools[s].pools[m].allocation_count();
                total = total.saturating_add(c);
                m = m + 1;
            }
            proof {
                assert(self.pools@[s as int].pools@.take(mt_count as int) =~= self.pools@[
                    s as int
                ].pools@);
            }
            s = s + 1;
        }
        proof {
            assert(self.pools@.take(n as int) =~= self.pools@);
        }
        total
    }

    /// Bytes held by live allocations across all pools, alignment padding
    /// and dedicated blocks included, saturating at `u64::MAX`.
    pub fn used_bytes(&self) -> (r: u64)
        requires
            self.wf(),
        ensures
            r as int == crate::pool::sat_cap(
                slots_total(self.pools@, |p: MemoryPool| p.spec_used_bytes()),
                u64::MAX as int,
            ),
    {
        let ghost f = |p: MemoryPool| p.spec_used_bytes();
        proof {
            lemma_stat_nonneg(f);
        }
        let mut total: u64 = 0;
        let n = self.pools.len();
        let mut s: usize = 0;
        while s < n
            invariant
                self.wf(),
                n == self.pools@.len(),
                0 <= s <= n,
                f == (|p: MemoryPool| p.spec_used_bytes()),
                forall|p: MemoryPool| 0 <= #[trigger] f(p),
                total as int == crate::pool::sat_cap(
                    slots_total(self.pools@.take(s as int), f),
                    u64::MAX as int,
                ),
            decreases n - s,
        {
            proof {
                lemma_slots_total_take_step(self.pools@, f, s as int);
                lemma_slots_total_nonneg(self.pools@.take(s as int), f);
                lemma_pools_total_nonneg(self.pools@[s as int].pools@, f);
            }
            let mt_count = self.pools[s].pools.len();
            let mut m: usize = 0;
            while m < mt_count
                invariant
                    self.wf(),
                    n == self.pools@.len(),
                    0 <= s < n,
                    mt_count == self.pools@[s as int].pools@.len(),
                    0 <= m <= mt_count,
                    f == (|p: MemoryPool| p.spec_used_bytes()),
                    forall|p: MemoryPool| 0 <= #[trigger] f(p),
                    total as int == crate::pool::sat_cap(
                        slots_total(self.pools@.take(s as int), f) + pools_total(
                            self.pools@[s as int].pools@.take(m as int),
                            f,
                        ),
                        u64::MAX as int,
                    ),
                decreases mt_count - m,
            {
                proof {
                    lemma_pools_total_take_step(self.pools@[s as int].pools@, f, m as int);
                    lemma_slots_total_nonneg(self.pools@.take(s as int), f);
                    lemma_pools_total_nonneg(
                        self.pools@[s as int].pools@.take(m as int),
                        f,
                    );
                    assert(self.pool_at(s as int, m as int).wf());
                }
                let c = self.pools[s].pools[m].used_bytes();
                total = total.saturating_add(c);
                m = m + 1;
            }
            proof {
                assert(self.pools@[s as int].pools@.take(mt_count as int) =~= self.pools@[
                    s as int
                ].pools@);
            }
            s = s + 1;
        }
        proof {
            assert(self.pools@.take(n as int) =~= self.pools@);
        }
        total
    }

    /// Bytes covered by free chunks across all pools, saturating at
    /// `u64::MAX`.
    pub fn unused_bytes(&self) -> (r: u64)
        requires
            self.wf(),
        ensures
            r as int == crate::pool::sat_cap(
                slots_total(self.pools@, |p: MemoryPool| p.spec_unused_bytes()),
                u64::MAX as int,
            ),
    {
        let ghost f = |p: MemoryPool| p.spec_unused_bytes();
        proof {
            lemma_stat_nonneg(f);
        }
        let mut total: u64 = 0;
        let n = self.pools.len();
        let mut s: usize = 0;
        while s < n
            invariant
                self.wf(),
                n == self.pools@.len(),
                0 <= s <= n,
                f == (|p: MemoryPool| p.spec_unused_bytes()),
                forall|p: MemoryPool| 0 <= #[trigger] f(p),
                total as int == crate::pool::sat_cap(
                    slots_total(self.pools@.take(s as int), f),
                    u64::MAX as int,
                ),
            decreases n - s,
        {
            proof {
                lemma_slots_total_take_step(self.pools@, f, s as int);
                lemma_slots_total_nonneg(self.pools@.take(s as int), f);
                lemma_pools_total_nonneg(self.pools@[s as int].pools@, f);
            }
            let mt_count = self.pools[s].pools.len();
            let mut m: usize = 0;
            while m < mt_count
                invariant
                    self.wf(),
                    n == self.pools@.len(),
                    0 <= s < n,
                    mt_count == self.pools@[s as int].pools@.len(),
                    0 <= m <= mt_count,
                    f == (|p: MemoryPool| p.spec_unused_bytes()),
                    forall|p: MemoryPool| 0 <= #[trigger] f(p),
                    total as int == crate::pool::sat_cap(
                        slots_total(self.pools@.take(s as int), f) + pools_total(
                            self.pools@[s as int].pools@.take(m as int),
                            f,
                        ),
                        u64::MAX as int,
                    ),
                decreases mt_count - m,
            {
                proof {
                    lemma_pools_total_take_step(self.pools@[s as int].pools@, f, m as int);
                    lemma_slots_total_nonneg(self.pools@.take(s as int), f);
                    lemma_pools_total_nonneg(
                        self.pools@[s as int].pools@.take(m as int),
                        f,
                    );
                    assert(self.pool_at(s as int, m as int).wf());
                }
                let c = self.pools[s].pools[m].unused_bytes();
                total = total.saturating_add(c);
                m = m + 1;
            }
            proof {
                assert(self.pools@[s as int].pools@.take(mt_count as int) =~= self.pools@[
                    s as int
                ].pools@);
            }
            s = s + 1;
        }
        proof {
            assert(self.pools@.take(n as int) =~= self.pools@);
        }
        total
    }

    /// Number of free ranges between allocations across all pools,
    /// saturating at `usize::MAX`.
    pub fn unused_range_count(&self) -> (r: usize)
        requires
            self.wf(),
        ensures
            r as int == crate::pool::sat_cap(
                slots_total(self.pools@, |p: MemoryPool| p.spec_unused_range_count()),
                usize::MAX as int,
            ),
    {
        let ghost f = |p: MemoryPool| p.spec_unused_range_count();
        proof {
            lemma_stat_nonneg(f);
        }
        let mut total: usize = 0;
        let n = self.pools.len();
        let mut s: usize = 0;
        while s < n
            invariant
                self.wf(),
                n == self.pools@.len(),
                0 <= s <= n,
                f == (|p: MemoryPool| p.spec_unused_range_count()),
                forall|p: MemoryPool| 0 <= #[trigger] f(p),
                total as int == crate::pool::sat_cap(
                    slots_total(self.pools@.take(s as int), f),
                    usize::MAX as int,
                ),
            decreases n - s,
        {
            proof {
                lemma_slots_total_take_step(self.pools@, f, s as int);
                lemma_slots_total_nonneg(self.pools@.take(s as int), f);
                lemma_pools_total_nonneg(self.pools@[s as int].pools@, f);
            }
            let mt_count = self.pools[s].pools.len();
            let mut m: usize = 0;
            while m < mt_count
                invariant
                    self.wf(),
                    n == self.pools@.len(),
                    0 <= s < n,
                    mt_count == self.pools@[s as int].pools@.len(),
                    0 <= m <= mt_count,
                    f == (|p: MemoryPool| p.spec_unused_range_count()),
                    forall|p: MemoryPool| 0 <= #[trigger] f(p),
                    total as int == crate::pool::sat_cap(
                        slots_total(self.pools@.take(s as int), f) + pools_total(
                            self.pools@[s as int].pools@.take(m as int),
                            f,
                        ),
                        usize::MAX as int,
                    ),
                decreases mt_count - m,
            {
                proof {
                    lemma_pools_total_take_step(self.pools@[s as int].pools@, f, m as int);
                    lemma_slots_total_nonneg(self.pools@.take(s as int), f);
                    lemma_pools_total_nonneg(
                        self.pools@[s as int].pools@.take(m as int),
                        f,
                    );
                    assert(self.pool_at(s as int, m as int).wf());
                }
                let c = self.pools[s].pools[m].unused_range_count();
                total = total.saturating_add(c);
                m = m + 1;
            }
            proof {
                assert(self.pools@[s as int].pools@.take(mt_count as int) =~= self.pools@[
                    s as int
                ].pools@);
            }
            s = s + 1;
        }
        proof {
            assert(self.pools@.take(n as int) =~= self.pools@);
        }
        total
    }

    /// Number of live memory blocks across all pools, saturating at
    /// `usize::MAX`.
    pub fn block_count(&self) -> (r: usize)
        requires
            self.wf(),
        ensures
            r as int == crate::pool::sat_cap(
                slots_total(self.pools@, |p: MemoryPool| p.spec_block_count()),
                usize::MAX as int,
            ),
    {
        let ghost f = |p: MemoryPool| p.spec_block_count();
        proof {
            lemma_stat_nonneg(f);
        }
        let mut total: usize = 0;
        let n = self.pools.len();
        let mut s: usize = 0;
        while s < n
            invariant
                self.wf(),
                n == self.pools@.len(),
                0 <= s <= n,
                f == (|p: MemoryPool| p.spec_block_count()),
                forall|p: MemoryPool| 0 <= #[trigger] f(p),
                total as int == crate::pool::sat_cap(
                    slots_total(self.pools@.take(s as int), f),
                    usize::MAX as int,
                ),
            decreases n - s,
        {
            proof {
                lemma_slots_total_take_step(self.pools@, f, s as int);
                lemma_slots_total_nonneg(self.pools@.take(s as int), f);
                lemma_pools_total_nonneg(self.pools@[s as int].pools@, f);
            }
            let mt_count = self.pools[s].pools.len();
            let mut m: usize = 0;
            while m < mt_count
                invariant
                    self.wf(),
                    n == self.pools@.len(),
                    0 <= s < n,
                    mt_count == self.pools@[s as int].pools@.len(),
                    0 <= m <= mt_count,
                    f == (|p: MemoryPool| p.spec_block_count()),
                    forall|p: MemoryPool| 0 <= #[trigger] f(p),
                    total as int == crate::pool::sat_cap(
                        slots_total(self.pools@.take(s as int), f) + pools_total(
                            self.pools@[s as int].pools@.take(m as int),
                            f,
                        ),
                        usize::MAX as int,
                    ),
                decreases mt_count - m,
            {
                proof {
                    lemma_pools_total_take_step(self.pools@[s as int].pools@, f, m as int);
                    lemma_slots_total_nonneg(self.pools@.take(s as int), f);
                    lemma_pools_total_nonneg(
                        self.pools@[s as int].pools@.take(m as int),
                        f,
                    );
                    assert(self.pool_at(s as int, m as int).wf());
                }
                let c = self.pools[s].pools[m].block_count();
                total = total.saturating_add(c);
                m = m + 1;
            }
            proof {
                assert(self.pools@[s as int].pools@.take(mt_count as int) =~= self.pools@[
                    s as int
                ].pools@);
            }
            s = s + 1;
        }
        proof {
            assert(self.pools@.take(n as int) =~= self.pools@);
        }
        total
    }

    /// Finds the slot of a lifetime tag.
    fn find_lifetime_slot(&self, lifetime: usize) -> (r: Option<usize>)
        ensures
            match r {
                Some(s) => self.slot_of(lifetime) == Some(s as int) && s < self.pools@.len()
                    && self.pools@[s as int].lifetime == lifetime,
                None => self.slot_of(lifetime) is None,
            },
    {
        let n = self.pools.len();
        let mut s: usize = 0;
        while s < n
            invariant
                n == self.pools@.len(),
                0 <= s <= n,
                self.slot_of(lifetime) == self.slot_of_from(s as int, lifetime),
            decreases n - s,
        {
            if self.pools[s].lifetime == lifetime {
                return Some(s);
            }
            s = s + 1;
        }
        None
    }
}

/// A lifetime present in no prefix slot stays absent when searched from
/// any start.
proof fn lemma_slot_of_none_means_absent(a: Allocator, lifetime: usize, s: int)
    requires
        a.slot_of(lifetime) is None,
        0 <= s < a.pools@.len(),
    ensures
        a.pools@[s].lifetime != lifetime,
{
    lemma_slot_of_from_none(a, lifetime, 0, s);
}

/// If the search from `i` finds nothing, no slot from `i` on carries the
/// lifetime.
proof fn lemma_slot_of_from_none(a: Allocator, lifetime: usize, i: int, s: int)
    requires
        0 <= i <= s < a.pools@.len(),
        a.slot_of_from(i, lifetime) is None,
    ensures
        a.pools@[s].lifetime != lifetime,
    decreases s - i,
{
    if i < s {
        lemma_slot_of_from_none(a, lifetime, i + 1, s);
    }
}

/// Appending a new slot for a fresh lifetime makes it the tag's slot and
/// leaves every other tag's slot as it was.
proof fn lemma_slot_of_extends(s0: Allocator, s2: Allocator, lifetime: usize)
    requires
        s2.pools@.len() == s0.pools@.len() + 1,
        forall|s: int| 0 <= s < s0.pools@.len() ==> s2.pools@[s] == s0.pools@[s],
        s2.pools@.last().lifetime == lifetime,
        s0.slot_of(lifetime) is None,
    ensures
        s2.slot_of(lifetime) == Some(s0.pools@.len() as int),
{
    lemma_slot_of_extends_from(s0, s2, lifetime, 0);
}

/// Helper for `lemma_slot_of_extends`, walking the search index.
proof fn lemma_slot_of_extends_from(s0: Allocator, s2: Allocator, lifetime: usize, i: int)
    requires
        s2.pools@.len() == s0.pools@.len() + 1,
        forall|s: int| 0 <= s < s0.pools@.len() ==> s2.pools@[s] == s0.pools@[s],
        s2.pools@.last().lifetime == lifetime,
        0 <= i <= s0.pools@.len(),
        s0.slot_of_from(i, lifetime) is None,
    ensures
        s2.slot_of_from(i, lifetime) == Some(s0.pools@.len() as int),
    decreases s0.pools@.len() - i,
{
    if i < s0.pools@.len() {
        lemma_slot_of_extends_from(s0, s2, lifetime, i + 1);
    }
}

/// The block records of one lifetime's pools, in memory type order.
pub open spec fn slot_records(pools: Seq<MemoryPool>) -> Seq<MemoryBlock>
    decreases pools.len(),
{
    if pools.len() == 0 {
        Seq::empty()
    } else {
        slot_records(pools.drop_last()) + crate::pool::live_blocks_of(pools.last().blocks@)
    }
}

/// The block records of all pools, in lifetime slot order.
pub open spec fn all_block_records(slots: Seq<LifetimePools>) -> Seq<MemoryBlock>
    decreases slots.len(),
{
    if slots.len() == 0 {
        Seq::empty()
    } else {
        all_block_records(slots.drop_last()) + slot_records(slots.last().pools@)
    }
}

/// Every pool statistic is non-negative.
proof fn lemma_stat_nonneg(f: spec_fn(MemoryPool) -> int)
    requires
        f == (|p: MemoryPool| p.spec_allocation_count()) || f == (
        |p: MemoryPool| p.spec_used_bytes()) || f == (|p: MemoryPool| p.spec_unused_bytes()) || f
            == (|p: MemoryPool| p.spec_unused_range_count()) || f == (
        |p: MemoryPool| p.spec_block_count()),
    ensures
        forall|p: MemoryPool| 0 <= #[trigger] f(p),
{
    assert forall|p: MemoryPool| 0 <= #[trigger] f(p) by {
        crate::seq_sum::lemma_sum_bounds(p.chunks@.map_values(|c| crate::pool::chunk_used_size(c)));
        crate::seq_sum::lemma_sum_bounds(p.chunks@.map_values(|c| crate::pool::chunk_free_size(c)));
        crate::seq_sum::lemma_sum_bounds(
            p.chunks@.map_values(|c| crate::pool::chunk_alloc_count(c)),
        );
        crate::seq_sum::lemma_sum_bounds(
            p.chunks@.map_values(|c| crate::pool::chunk_free_count(c)),
        );
        crate::seq_sum::lemma_sum_bounds(
            p.blocks@.map_values(|b| crate::pool::block_dedicated_size(b)),
        );
        crate::seq_sum::lemma_sum_bounds(
            p.blocks@.map_values(|b| crate::pool::block_dedicated_count(b)),
        );
        crate::seq_sum::lemma_sum_bounds(
            p.blocks@.map_values(|b| crate::pool::block_live_count(b)),
        );
    }
}

/// After one pool of a well-formed allocator is replaced by a pool that is
/// itself well formed under the same configuration, the allocator is well
/// formed again.
proof fn lemma_allocator_wf_after_pool_update(s1: Allocator, s2: Allocator, st: int, mt: int)
    requires
        s1.wf(),
        0 <= st < s1.pools@.len(),
        0 <= mt < s1.pools@[st].pools@.len(),
        s2.driver_id == s1.driver_id,
        s2.is_integrated == s1.is_integrated,
        s2.block_size == s1.block_size,
        s2.buffer_image_granularity == s1.buffer_image_granularity,
        s2.memory_types == s1.memory_types,
        s2.pools@.len() == s1.pools@.len(),
        forall|x: int| 0 <= x < s2.pools@.len() && x != st ==> s2.pools@[x] == s1.pools@[x],
        s2.pools@[st].lifetime == s1.pools@[st].lifetime,
        s2.pools@[st].pools@.len() == s1.pools@[st].pools@.len(),
        forall|m2: int|
            0 <= m2 < s2.pools@[st].pools@.len() && m2 != mt ==> s2.pool_at(st, m2) == s1.pool_at(
                st,
                m2,
            ),
        s2.pool_at(st, mt).wf(),
        s2.pool_at(st, mt).block_size == s1.block_size,
        s2.pool_at(st, mt).memory_type_index == mt,
        s2.pool_at(st, mt).is_mappable == s1.type_mappable(mt),
    ensures
        s2.wf(),
{
    assert forall|x: int| 0 <= x < s2.pools@.len() implies (#[trigger] s2.pools@[x]).pools@.len()
        == s2.memory_types@.len() by {
        if x != st {
            assert(s2.pools@[x] == s1.pools@[x]);
        }
        assert(s1.pools@[x].pools@.len() == s1.memory_types@.len());
    }
    assert forall|x: int, m2: int|
        0 <= x < s2.pools@.len() && 0 <= m2 < s2.pools@[x].pools@.len() implies {
        let p = #[trigger] s2.pool_at(x, m2);
        &&& p.wf()
        &&& p.block_size == s2.block_size
        &&& p.memory_type_index == m2
        &&& p.is_mappable == s2.type_mappable(m2)
    } by {
        if x == st && m2 == mt {
        } else if x == st {
            assert(s2.pool_at(x, m2) == s1.pool_at(x, m2));
            assert(s1.pool_at(x, m2).wf());
        } else {
            assert(s2.pools@[x] == s1.pools@[x]);
            assert(s1.pool_at(x, m2).wf());
        }
    }
    assert forall|x1: int, x2: int|
        0 <= x1 < x2 < s2.pools@.len() implies (#[trigger] s2.pools@[x1]).lifetime != (
    #[trigger] s2.pools@[x2]).lifetime by {
        assert(s2.pools@[x1].lifetime == s1.pools@[x1].lifetime);
        assert(s2.pools@[x2].lifetime == s1.pools@[x2].lifetime);
    }
}

/// Two allocators whose slots carry the same lifetime tags agree on every
/// tag's slot.
proof fn lemma_slot_of_same(a: Allocator, b: Allocator, lifetime: usize)
    requires
        a.pools@.len() == b.pools@.len(),
        forall|s: int|
            0 <= s < a.pools@.len() ==> (#[trigger] a.pools@[s]).lifetime == (
            #[trigger] b.pools@[s]).lifetime,
    ensures
        a.slot_of(lifetime) == b.slot_of(lifetime),
{
    lemma_slot_of_same_from(a, b, lifetime, 0);
}

/// Helper for `lemma_slot_of_same`, walking the search index.
proof fn lemma_slot_of_same_from(a: Allocator, b: Allocator, lifetime: usize, i: int)
    requires
        a.pools@.len() == b.pools@.len(),
        forall|s: int|
            0 <= s < a.pools@.len() ==> (#[trigger] a.pools@[s]).lifetime == (
            #[trigger] b.pools@[s]).lifetime,
        0 <= i,
    ensures
        a.slot_of_from(i, lifetime) == b.slot_of_from(i, lifetime),
    decreases a.pools@.len() - i,
{
    if i < a.pools@.len() {
        lemma_slot_of_same_from(a, b, lifetime, i + 1);
    }
}

/// A found slot is the search's unique answer.
proof fn lemma_slot_of_unique(a: Allocator, lifetime: usize, s: int)
    requires
        0 <= s < a.pools@.len(),
        a.pools@[s].lifetime == lifetime,
        a.slot_of(lifetime) is Some,
        forall|s1: int, s2: int|
            0 <= s1 < s2 < a.pools@.len() ==> (#[trigger] a.pools@[s1]).lifetime != (
            #[trigger] a.pools@[s2]).lifetime,
    ensures
        a.slot_of(lifetime) == Some(s),
{
    lemma_slot_of_unique_from(a, lifetime, s, 0);
}

/// Helper for `lemma_slot_of_unique`, walking the search index.
proof fn lemma_slot_of_unique_from(a: Allocator, lifetime: usize, s: int, i: int)
    requires
        0 <= i <= s < a.pools@.len(),
        a.pools@[s].lifetime == lifetime,
        forall|s1: int, s2: int|
            0 <= s1 < s2 < a.pools@.len() ==> (#[trigger] a.pools@[s1]).lifetime != (
            #[trigger] a.pools@[s2]).lifetime,
    ensures
        a.slot_of_from(i, lifetime) == Some(s),
    decreases s - i,
{
    if i < s {
        assert(a.pools@[i].lifetime != lifetime);
        lemma_slot_of_unique_from(a, lifetime, s, i + 1);
    }
}

} // verus!

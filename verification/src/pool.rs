//! The memory pool: all blocks and chunks of one (lifetime tag, memory
//! type) pair, with segregated free lists bucketed by size.
//!
//! Blocks and chunks live in growable tables addressed by small integer
//! keys; freed slots are remembered on a stack and reused. The chunks of
//! one block form a doubly linked, offset-ordered chain that covers the
//! block exactly, with no gaps and no overlaps.

use crate::bucket::{bucket_of, calculate_bucket_index, lemma_bucket_monotonic};
use crate::seq_sum::{
    lemma_sum_bounds, lemma_sum_push, lemma_sum_take_all, lemma_sum_take_step, lemma_sum_update,
    sum_ints,
};
use crate::math::{align_up, is_on_same_page, is_pow2, lemma_align_up_props, lemma_pow2_bounds, spec_align_up, spec_same_page};
use crate::types::{
    spec_granularity_conflict, Allocation, AllocatorError, ChunkType, MemoryBlock, MemoryChunk,
};
use vstd::prelude::*;

verus! {

/// Liveness of a slot of a tombstoned table.
pub open spec fn live_at<T>(table: Seq<Option<T>>, i: int) -> bool {
    0 <= i < table.len() && table[i] is Some
}

/// The free-slot stack names only dead slots of the table, each at most
/// once.
pub open spec fn valid_slots<T>(table: Seq<Option<T>>, slots: Seq<usize>) -> bool {
    &&& forall|s: int|
        0 <= s < slots.len() ==> #[trigger] slots[s] < table.len() && table[slots[s] as int]
            is None
    &&& forall|s1: int, s2: int| 0 <= s1 < s2 < slots.len() ==> slots[s1] != slots[s2]
}

/// Contribution of a chunk-table slot to the pool's used bytes: the bytes
/// reserved by a live, allocated chunk, alignment padding included.
pub open spec fn chunk_used_size(c: Option<MemoryChunk>) -> int {
    match c {
        Some(c) => if c.chunk_type != ChunkType::Free {
            c.size as int
        } else {
            0
        },
        None => 0,
    }
}

/// Contribution of a chunk-table slot to the pool's unused bytes.
pub open spec fn chunk_free_size(c: Option<MemoryChunk>) -> int {
    match c {
        Some(c) => if c.chunk_type == ChunkType::Free {
            c.size as int
        } else {
            0
        },
        None => 0,
    }
}

/// Contribution of a chunk-table slot to the pool's allocation count.
pub open spec fn chunk_alloc_count(c: Option<MemoryChunk>) -> int {
    match c {
        Some(c) => if c.chunk_type != ChunkType::Free {
            1
        } else {
            0
        },
        None => 0,
    }
}

/// Contribution of a chunk-table slot to the pool's free-range count.
pub open spec fn chunk_free_count(c: Option<MemoryChunk>) -> int {
    match c {
        Some(c) => if c.chunk_type == ChunkType::Free {
            1
        } else {
            0
        },
        None => 0,
    }
}

/// Contribution of a block-table slot to the pool's used bytes: a dedicated
/// block is used in full by its single allocation.
pub open spec fn block_dedicated_size(b: Option<MemoryBlock>) -> int {
    match b {
        Some(b) => if b.is_dedicated {
            b.size as int
        } else {
            0
        },
        None => 0,
    }
}

/// Contribution of a block-table slot to the pool's allocation count.
pub open spec fn block_dedicated_count(b: Option<MemoryBlock>) -> int {
    match b {
        Some(b) => if b.is_dedicated {
            1
        } else {
            0
        },
        None => 0,
    }
}

/// Contribution of a block-table slot to the pool's block count.
pub open spec fn block_live_count(b: Option<MemoryBlock>) -> int {
    match b {
        Some(_) => 1,
        None => 0,
    }
}

/// The chunk kind a request asks for: optimally tiled images are
/// `Optimal`, buffers and linear images are `Linear`.
pub open spec fn request_chunk_type(is_optimal: bool) -> ChunkType {
    if is_optimal {
        ChunkType::Optimal
    } else {
        ChunkType::Linear
    }
}

/// The winner of a bucket scan: which free chunk to split, where the
/// request would start in it, and how much would be left over.
#[derive(Clone, Copy, Debug)]
struct BestFitCandidate {
    /// Key of the chosen free chunk.
    key: usize,
    /// Position of the chosen chunk in its bucket's free list.
    free_list_index: usize,
    /// Offset the request would get.
    aligned_offset: u64,
    /// Bytes left over at the top of the chunk.
    free_size: u64,
}

/// A managed memory region of a specific memory type: the blocks obtained
/// from the device and the chunks they are carved into.
#[derive(Debug)]
pub struct MemoryPool {
    /// Index of the device memory type all blocks of this pool live in.
    pub memory_type_index: u32,
    /// Size in bytes of every non-dedicated block.
    pub block_size: u64,
    /// Whether blocks of this pool are mapped for host access.
    pub is_mappable: bool,
    /// The block table; freed entries are tombstoned and reused.
    pub blocks: Vec<Option<MemoryBlock>>,
    /// The chunk table; freed entries are tombstoned and reused.
    pub chunks: Vec<Option<MemoryChunk>>,
    /// Free chunk keys, segregated by size bucket.
    pub free_chunks: Vec<Vec<usize>>,
    /// The bucket of a whole block, the largest bucket any chunk can need.
    pub max_bucket_index: u32,
    /// Dead slots of the block table, available for reuse.
    pub free_block_slots: Vec<usize>,
    /// Dead slots of the chunk table, available for reuse.
    pub free_chunk_slots: Vec<usize>,
}

impl MemoryPool {
    /// Whether chunk key `i` names a live chunk.
    pub open spec fn chunk_live(&self, i: int) -> bool {
        live_at(self.chunks@, i)
    }

    /// The live chunk at key `i`.
    pub open spec fn chunk_at(&self, i: int) -> MemoryChunk {
        self.chunks@[i]->0
    }

    /// Whether block key `b` names a live block.
    pub open spec fn block_live(&self, b: int) -> bool {
        live_at(self.blocks@, b)
    }

    /// The live block at key `b`.
    pub open spec fn block_at(&self, b: int) -> MemoryBlock {
        self.blocks@[b]->0
    }

    /// Whether `(b, j)` is a valid free-list position.
    pub open spec fn in_fl(&self, b: int, j: int) -> bool {
        0 <= b < self.free_chunks@.len() && 0 <= j < self.free_chunks@[b]@.len()
    }

    /// The chunk key at free-list position `(b, j)`.
    pub open spec fn fl_at(&self, b: int, j: int) -> int {
        self.free_chunks@[b]@[j] as int
    }

    /// Whether chunk key `i` stands in some free list.
    pub open spec fn free_list_has(&self, i: int) -> bool {
        exists|b: int, j: int| self.in_fl(b, j) && self.fl_at(b, j) == i
    }

    /// Where a request of the given alignment and kind would start inside
    /// the free chunk at key `k`: the chunk's offset rounded up to the
    /// alignment and, when the chunk below holds a conflicting resource
    /// kind ending on the same device page, rounded up further to the next
    /// page boundary.
    pub open spec fn cand_offset(&self, k: int, alignment: int, granularity: int, ct: ChunkType) -> int {
        let c = self.chunk_at(k);
        let a0 = spec_align_up(c.offset as int, alignment);
        match c.previous {
            Some(p) => if spec_granularity_conflict(self.chunk_at(p as int).chunk_type, ct)
                && spec_same_page(
                self.chunk_at(p as int).offset as int,
                self.chunk_at(p as int).size as int,
                a0,
                granularity,
            ) {
                spec_align_up(a0, granularity)
            } else {
                a0
            },
            None => a0,
        }
    }

    /// Whether the free chunk at key `k` can hold a request of `size` bytes
    /// at its candidate offset. A chunk whose upper neighbour holds a
    /// conflicting resource kind on the candidate's page is rejected, since
    /// a trailing conflict cannot be fixed by padding.
    pub open spec fn cand_fits(
        &self,
        k: int,
        size: int,
        alignment: int,
        granularity: int,
        ct: ChunkType,
    ) -> bool {
        let c = self.chunk_at(k);
        let a = self.cand_offset(k, alignment, granularity, ct);
        &&& a + size <= c.offset + c.size
        &&& match c.next {
            Some(n) => !(spec_granularity_conflict(self.chunk_at(n as int).chunk_type, ct)
                && spec_same_page(
                self.chunk_at(n as int).offset as int,
                self.chunk_at(n as int).size as int,
                a,
                granularity,
            )),
            None => true,
        }
    }

    /// The bytes left over at the top of the free chunk at key `k` after
    /// serving the request there.
    pub open spec fn cand_leftover(
        &self,
        k: int,
        size: int,
        alignment: int,
        granularity: int,
        ct: ChunkType,
    ) -> int {
        let c = self.chunk_at(k);
        self.chunk_at(k).offset + self.chunk_at(k).size - self.cand_offset(
            k,
            alignment,
            granularity,
            ct,
        ) - size
    }

    /// Whether some chunk filed in bucket `b` can hold the request.
    pub open spec fn bucket_has_fit(
        &self,
        b: int,
        size: int,
        alignment: int,
        granularity: int,
        ct: ChunkType,
    ) -> bool {
        exists|j: int|
            0 <= j < self.free_chunks@[b]@.len() && self.cand_fits(
                #[trigger] self.fl_at(b, j),
                size,
                alignment,
                granularity,
                ct,
            )
    }

    /// The choice the allocator makes: the chunk at key `k`, filed in
    /// bucket `b`, is the best fit — no lower bucket from the request's own
    /// bucket on has any fit, no fit in bucket `b` leaves less over, and of
    /// the fits leaving equally little over, `k` is the first filed.
    pub open spec fn chooses_best_fit(
        &self,
        k: int,
        b: int,
        size: int,
        alignment: int,
        granularity: int,
        ct: ChunkType,
    ) -> bool {
        &&& bucket_of(size) <= b < self.free_chunks@.len()
        &&& forall|b2: int|
            bucket_of(size) <= b2 < b ==> !self.bucket_has_fit(b2, size, alignment, granularity, ct)
        &&& self.cand_fits(k, size, alignment, granularity, ct)
        &&& exists|j: int|
            {
                &&& 0 <= j < self.free_chunks@[b]@.len()
                &&& #[trigger] self.fl_at(b, j) == k
                &&& forall|j2: int|
                    0 <= j2 < self.free_chunks@[b]@.len() && self.cand_fits(
                        #[trigger] self.fl_at(b, j2),
                        size,
                        alignment,
                        granularity,
                        ct,
                    ) ==> self.cand_leftover(self.fl_at(b, j2), size, alignment, granularity, ct)
                        >= self.cand_leftover(k, size, alignment, granularity, ct)
                &&& forall|j2: int|
                    0 <= j2 < j && self.cand_fits(
                        #[trigger] self.fl_at(b, j2),
                        size,
                        alignment,
                        granularity,
                        ct,
                    ) ==> self.cand_leftover(self.fl_at(b, j2), size, alignment, granularity, ct)
                        > self.cand_leftover(k, size, alignment, granularity, ct)
            }
    }

    /// The pool's fixed configuration: the free lists cover exactly the
    /// buckets a chunk of at most one block can need.
    pub open spec fn wf_config(&self) -> bool {
        &&& 256 <= self.block_size <= 0x8000_0000_0000_0000u64
        &&& self.max_bucket_index == bucket_of(self.block_size as int)
        &&& self.free_chunks@.len() == self.max_bucket_index + 1
    }

    /// Local soundness of one live chunk's placement and links: it lies in
    /// a live, chunked block; its links are mirrored by its neighbours; the
    /// neighbour below ends where it starts and the neighbour above starts
    /// where it ends; a first chunk starts at 0 and a last chunk ends at
    /// the block size.
    pub open spec fn wf_chunk_links(&self, i: int) -> bool {
        let c = self.chunk_at(i);
        &&& self.block_live(c.block_key as int)
        &&& !self.block_at(c.block_key as int).is_dedicated
        &&& 1 <= c.size
        &&& c.offset + c.size <= self.block_size
        &&& match c.previous {
            Some(p) => {
                &&& self.chunk_live(p as int)
                &&& p != i
                &&& self.chunk_at(p as int).block_key == c.block_key
                &&& self.chunk_at(p as int).next == Some(i as usize)
                &&& self.chunk_at(p as int).offset + self.chunk_at(p as int).size == c.offset
            },
            None => c.offset == 0,
        }
        &&& match c.next {
            Some(n) => {
                &&& self.chunk_live(n as int)
                &&& n != i
                &&& self.chunk_at(n as int).block_key == c.block_key
                &&& self.chunk_at(n as int).previous == Some(i as usize)
                &&& c.offset + c.size == self.chunk_at(n as int).offset
            },
            None => c.offset + c.size == self.block_size,
        }
    }

    /// Local soundness of one live chunk: sound placement and links, and a
    /// free chunk is filed in a free list.
    pub open spec fn wf_chunk(&self, i: int) -> bool {
        &&& self.wf_chunk_links(i)
        &&& (self.chunk_at(i).chunk_type == ChunkType::Free ==> self.free_list_has(i))
    }

    /// Local soundness of one live block: a chunked block has the pool's
    /// fixed size; mapping matches the pool's mappability and stays within
    /// the host address space.
    pub open spec fn wf_block(&self, b: int) -> bool {
        let blk = self.block_at(b);
        &&& (!blk.is_dedicated ==> blk.size == self.block_size)
        &&& 1 <= blk.size
        &&& (blk.mapped_base is Some <==> self.is_mappable)
        &&& (blk.mapped_base is Some ==> blk.mapped_base->0 + blk.size <= u64::MAX)
    }

    /// Soundness of the free lists: they name live free chunks, filed in
    /// the bucket of their size, each exactly once.
    pub open spec fn wf_free_lists(&self) -> bool {
        &&& forall|b: int, j: int|
            self.in_fl(b, j) ==> {
                let k = #[trigger] self.fl_at(b, j);
                &&& self.chunk_live(k)
                &&& self.chunk_at(k).chunk_type == ChunkType::Free
                &&& bucket_of(self.chunk_at(k).size as int) == b
            }
        &&& forall|b1: int, j1: int, b2: int, j2: int|
            self.in_fl(b1, j1) && self.in_fl(b2, j2) && #[trigger] self.fl_at(b1, j1)
                == #[trigger] self.fl_at(b2, j2) ==> b1 == b2 && j1 == j2
    }

    /// The pool invariant.
    pub open spec fn wf(&self) -> bool {
        &&& self.wf_config()
        &&& forall|i: int| #[trigger] self.chunk_live(i) ==> self.wf_chunk(i)
        &&& forall|b: int| #[trigger] self.block_live(b) ==> self.wf_block(b)
        &&& self.wf_free_lists()
        &&& valid_slots(self.chunks@, self.free_chunk_slots@)
        &&& valid_slots(self.blocks@, self.free_block_slots@)
    }

    /// Bytes reserved by live allocations, alignment padding included;
    /// a dedicated block counts in full.
    pub open spec fn spec_used_bytes(&self) -> int {
        sum_ints(self.chunks@.map_values(|c| chunk_used_size(c))) + sum_ints(
            self.blocks@.map_values(|b| block_dedicated_size(b)),
        )
    }

    /// Bytes covered by free chunks.
    pub open spec fn spec_unused_bytes(&self) -> int {
        sum_ints(self.chunks@.map_values(|c| chunk_free_size(c)))
    }

    /// Live allocations: allocated chunks plus dedicated blocks.
    pub open spec fn spec_allocation_count(&self) -> int {
        sum_ints(self.chunks@.map_values(|c| chunk_alloc_count(c))) + sum_ints(
            self.blocks@.map_values(|b| block_dedicated_count(b)),
        )
    }

    /// Live blocks.
    pub open spec fn spec_block_count(&self) -> int {
        sum_ints(self.blocks@.map_values(|b| block_live_count(b)))
    }

    /// Free ranges between allocations.
    pub open spec fn spec_unused_range_count(&self) -> int {
        sum_ints(self.chunks@.map_values(|c| chunk_free_count(c)))
    }

    /// Creates an empty pool for one memory type.
    ///
    /// `block_size` is the fixed size of every non-dedicated block; the
    /// free lists are sized so that the largest bucket is the one a whole
    /// block falls in.
    pub fn new(block_size: u64, memory_type_index: u32, is_mappable: bool) -> (p: MemoryPool)
        requires
            256 <= block_size <= 0x8000_0000_0000_0000u64,
        ensures
            p.wf(),
            p.block_size == block_size,
            p.memory_type_index == memory_type_index,
            p.is_mappable == is_mappable,
            p.spec_used_bytes() == 0,
            p.spec_unused_bytes() == 0,
            p.spec_allocation_count() == 0,
            p.spec_block_count() == 0,
            p.spec_unused_range_count() == 0,
            p.chunks@.len() == 0,
            p.blocks@.len() == 0,
    {
        let max_bucket_index = calculate_bucket_index(block_size);
        proof {
            crate::bucket::lemma_bucket_u64_max(block_size as int);
        }
        let mut free_chunks: Vec<Vec<usize>> = Vec::new();
        let mut i: u32 = 0;
        while i < max_bucket_index + 1
            invariant
                i == free_chunks@.len(),
                i <= max_bucket_index + 1,
                max_bucket_index <= 56,
                forall|b: int| 0 <= b < i ==> #[trigger] free_chunks@[b]@.len() == 0,
            decreases max_bucket_index + 1 - i,
        {
            free_chunks.push(Vec::new());
            i = i + 1;
        }
        let p = MemoryPool {
            memory_type_index,
            block_size,
            is_mappable,
            blocks: Vec::new(),
            chunks: Vec::new(),
            free_chunks,
            max_bucket_index,
            free_block_slots: Vec::new(),
            free_chunk_slots: Vec::new(),
        };
        proof {
            assert(p.chunks@.map_values(|c| chunk_used_size(c)) =~= Seq::<int>::empty());
            assert(p.chunks@.map_values(|c| chunk_free_size(c)) =~= Seq::<int>::empty());
            assert(p.chunks@.map_values(|c| chunk_alloc_count(c)) =~= Seq::<int>::empty());
            assert(p.chunks@.map_values(|c| chunk_free_count(c)) =~= Seq::<int>::empty());
            assert(p.blocks@.map_values(|b| block_dedicated_size(b)) =~= Seq::<int>::empty());
            assert(p.blocks@.map_values(|b| block_dedicated_count(b)) =~= Seq::<int>::empty());
            assert(p.blocks@.map_values(|b| block_live_count(b)) =~= Seq::<int>::empty());
        }
        p
    }

    /// Whether some block of the pool is entirely one free chunk, so that
    /// any request of at most one block can be served without growing.
    pub open spec fn has_whole_free_block(&self) -> bool {
        exists|i: int|
            {
                &&& #[trigger] self.chunk_live(i)
                &&& self.chunk_at(i).chunk_type == ChunkType::Free
                &&& self.chunk_at(i).previous is None
                &&& self.chunk_at(i).next is None
                &&& self.chunk_at(i).size == self.block_size
            }
    }

    /// Files `chunk` into a dead slot of the chunk table, or grows the
    /// table by one.
    fn add_chunk(&mut self, chunk: MemoryChunk) -> (key: usize)
        requires
            valid_slots(old(self).chunks@, old(self).free_chunk_slots@),
        ensures
            final(self).blocks == old(self).blocks,
            final(self).free_chunks == old(self).free_chunks,
            final(self).free_block_slots == old(self).free_block_slots,
            final(self).memory_type_index == old(self).memory_type_index,
            final(self).block_size == old(self).block_size,
            final(self).is_mappable == old(self).is_mappable,
            final(self).max_bucket_index == old(self).max_bucket_index,
            valid_slots(final(self).chunks@, final(self).free_chunk_slots@),
            key < final(self).chunks@.len(),
            final(self).chunks@[key as int] == Some(chunk),
            !live_at(old(self).chunks@, key as int),
            forall|i: int|
                0 <= i < old(self).chunks@.len() && i != key ==> final(self).chunks@[i] == old(self).chunks@[i],
            final(self).chunks@.len() == old(self).chunks@.len() || (final(self).chunks@.len()
                == old(self).chunks@.len() + 1 && key == old(self).chunks@.len()),
            sum_ints(final(self).chunks@.map_values(|c| chunk_used_size(c))) == sum_ints(
                old(self).chunks@.map_values(|c| chunk_used_size(c)),
            ) + chunk_used_size(Some(chunk)),
            sum_ints(final(self).chunks@.map_values(|c| chunk_free_size(c))) == sum_ints(
                old(self).chunks@.map_values(|c| chunk_free_size(c)),
            ) + chunk_free_size(Some(chunk)),
            sum_ints(final(self).chunks@.map_values(|c| chunk_alloc_count(c))) == sum_ints(
                old(self).chunks@.map_values(|c| chunk_alloc_count(c)),
            ) + chunk_alloc_count(Some(chunk)),
            sum_ints(final(self).chunks@.map_values(|c| chunk_free_count(c))) == sum_ints(
                old(self).chunks@.map_values(|c| chunk_free_count(c)),
            ) + chunk_free_count(Some(chunk)),
    {
        let popped = self.free_chunk_slots.pop();
        match popped {
            Some(key) => {
                self.chunks[key] = Some(chunk);
                proof {
                    let pre = old(self).chunks@;
                    lemma_chunk_stats_update(pre, key as int, Some(chunk));
                    assert(chunk_used_size(pre[key as int]) == 0);
                }
                key
            },
            None => {
                let key = self.chunks.len();
                self.chunks.push(Some(chunk));
                proof {
                    lemma_chunk_stats_push(old(self).chunks@, Some(chunk));
                }
                key
            },
        }
    }

    /// Files `block` into a dead slot of the block table, or grows the
    /// table by one.
    fn add_block(&mut self, block: MemoryBlock) -> (key: usize)
        requires
            valid_slots(old(self).blocks@, old(self).free_block_slots@),
        ensures
            final(self).chunks == old(self).chunks,
            final(self).free_chunks == old(self).free_chunks,
            final(self).free_chunk_slots == old(self).free_chunk_slots,
            final(self).memory_type_index == old(self).memory_type_index,
            final(self).block_size == old(self).block_size,
            final(self).is_mappable == old(self).is_mappable,
            final(self).max_bucket_index == old(self).max_bucket_index,
            valid_slots(final(self).blocks@, final(self).free_block_slots@),
            key < final(self).blocks@.len(),
            final(self).blocks@[key as int] == Some(block),
            !live_at(old(self).blocks@, key as int),
            forall|i: int|
                0 <= i < old(self).blocks@.len() && i != key ==> final(self).blocks@[i] == old(self).blocks@[i],
            final(self).blocks@.len() == old(self).blocks@.len() || (final(self).blocks@.len()
                == old(self).blocks@.len() + 1 && key == old(self).blocks@.len()),
            sum_ints(final(self).blocks@.map_values(|b| block_dedicated_size(b))) == sum_ints(
                old(self).blocks@.map_values(|b| block_dedicated_size(b)),
            ) + block_dedicated_size(Some(block)),
            sum_ints(final(self).blocks@.map_values(|b| block_dedicated_count(b))) == sum_ints(
                old(self).blocks@.map_values(|b| block_dedicated_count(b)),
            ) + block_dedicated_count(Some(block)),
            sum_ints(final(self).blocks@.map_values(|b| block_live_count(b))) == sum_ints(
                old(self).blocks@.map_values(|b| block_live_count(b)),
            ) + 1,
    {
        let popped = self.free_block_slots.pop();
        match popped {
            Some(key) => {
                self.blocks[key] = Some(block);
                proof {
                    let pre = old(self).blocks@;
                    lemma_block_stats_update(pre, key as int, Some(block));
                }
                key
            },
            None => {
                let key = self.blocks.len();
                self.blocks.push(Some(block));
                proof {
                    lemma_block_stats_push(old(self).blocks@, Some(block));
                }
                key
            },
        }
    }

    /// Grows the pool by one block the caller has obtained from the device:
    /// the block becomes a single whole-block free chunk, filed in the
    /// largest bucket.
    ///
    /// `device_memory` is the raw handle of a fresh device reservation of
    /// exactly `self.block_size` bytes; `mapped_base` is its mapped base
    /// address when the pool is host-mappable.
    pub fn allocate_new_block(&mut self, device_memory: u64, mapped_base: Option<u64>) -> (block_key:
        usize)
        requires
            old(self).wf(),
            mapped_base is Some <==> old(self).is_mappable,
            mapped_base is Some ==> mapped_base->0 + old(self).block_size <= u64::MAX,
        ensures
            final(self).wf(),
            final(self).has_whole_free_block(),
            final(self).memory_type_index == old(self).memory_type_index,
            final(self).block_size == old(self).block_size,
            final(self).is_mappable == old(self).is_mappable,
            final(self).max_bucket_index == old(self).max_bucket_index,
            final(self).block_live(block_key as int),
            !old(self).block_live(block_key as int),
            final(self).block_at(block_key as int) == (MemoryBlock {
                device_memory,
                size: old(self).block_size,
                mapped_base,
                is_dedicated: false,
            }),
            forall|i: int|
                live_at(old(self).chunks@, i) ==> final(self).chunks@[i] == old(self).chunks@[i],
            forall|i: int|
                #[trigger] final(self).chunk_live(i) && !live_at(old(self).chunks@, i) ==> final(self).chunk_at(i) == (MemoryChunk {
                    block_key,
                    size: old(self).block_size,
                    offset: 0,
                    previous: None,
                    next: None,
                    chunk_type: ChunkType::Free,
                }),
            forall|b: int|
                live_at(old(self).blocks@, b) ==> final(self).blocks@[b] == old(self).blocks@[b],
            final(self).spec_used_bytes() == old(self).spec_used_bytes(),
            final(self).spec_unused_bytes() == old(self).spec_unused_bytes() + old(self).block_size,
            final(self).spec_allocation_count() == old(self).spec_allocation_count(),
            final(self).spec_block_count() == old(self).spec_block_count() + 1,
            final(self).spec_unused_range_count() == old(self).spec_unused_range_count() + 1,
    {
        let block = MemoryBlock {
            device_memory,
            size: self.block_size,
            mapped_base,
            is_dedicated: false,
        };
        let block_key = self.add_block(block);
        let chunk = MemoryChunk {
            block_key,
            size: self.block_size,
            offset: 0,
            previous: None,
            next: None,
            chunk_type: ChunkType::Free,
        };
        let chunk_key = self.add_chunk(chunk);
        let block_size = self.block_size;
        self.add_to_free_list(chunk_key, block_size);
        proof {
            let s0 = *old(self);
            let s2 = *self;
            let maxb = s0.max_bucket_index as int;
            let oldfl = s0.free_chunks@[maxb]@;
            assert(s2.fl_at(maxb, oldfl.len() as int) == chunk_key);
            assert(s2.in_fl(maxb, oldfl.len() as int));
            assert(s2.chunk_live(chunk_key as int));
            assert(s2.has_whole_free_block());
            assert forall|i: int| #[trigger] s2.chunk_live(i) implies s2.wf_chunk(i) by {
                if i == chunk_key {
                    assert(s2.free_list_has(i));
                } else {
                    assert(live_at(s0.chunks@, i));
                    assert(s0.chunk_live(i));
                    assert(s0.wf_chunk(i));
                    let c = s0.chunk_at(i);
                    assert(s2.chunk_at(i) == c);
                    assert(c.block_key != block_key);
                    assert(s2.block_at(c.block_key as int) == s0.block_at(c.block_key as int));
                    match c.previous {
                        Some(p) => {
                            assert(s0.chunk_live(p as int));
                            assert(p != chunk_key);
                            assert(s2.chunks@[p as int] == s0.chunks@[p as int]);
                        },
                        None => {},
                    }
                    match c.next {
                        Some(n) => {
                            assert(s0.chunk_live(n as int));
                            assert(n != chunk_key);
                            assert(s2.chunks@[n as int] == s0.chunks@[n as int]);
                        },
                        None => {},
                    }
                    if c.chunk_type == ChunkType::Free {
                        let (b, j) = choose|b: int, j: int|
                            s0.in_fl(b, j) && s0.fl_at(b, j) == i;
                        assert(s2.in_fl(b, j) && s2.fl_at(b, j) == i);
                        assert(s2.free_list_has(i));
                    }
                }
            }
            assert forall|b: int| #[trigger] s2.block_live(b) implies s2.wf_block(b) by {
                if b != block_key {
                    assert(live_at(s0.blocks@, b));
                    assert(s0.block_live(b));
                    assert(s0.wf_block(b));
                    assert(s2.block_at(b) == s0.block_at(b));
                }
            }
            assert forall|b: int, j: int| s2.in_fl(b, j) implies {
                let k = #[trigger] s2.fl_at(b, j);
                &&& s2.chunk_live(k)
                &&& s2.chunk_at(k).chunk_type == ChunkType::Free
                &&& bucket_of(s2.chunk_at(k).size as int) == b
            } by {
                if b == maxb && j == oldfl.len() {
                } else {
                    assert(s0.in_fl(b, j));
                    assert(s0.fl_at(b, j) == s2.fl_at(b, j));
                    let k = s0.fl_at(b, j);
                    assert(s0.chunk_live(k));
                    assert(k != chunk_key);
                    assert(s2.chunks@[k] == s0.chunks@[k]);
                }
            }
            assert forall|b1: int, j1: int, b2: int, j2: int|
                s2.in_fl(b1, j1) && s2.in_fl(b2, j2) && #[trigger] s2.fl_at(b1, j1)
                    == #[trigger] s2.fl_at(b2, j2) implies b1 == b2 && j1 == j2 by {
                let new1 = b1 == maxb && j1 == oldfl.len();
                let new2 = b2 == maxb && j2 == oldfl.len();
                if new1 && new2 {
                } else if !new1 && !new2 {
                    assert(s0.in_fl(b1, j1) && s0.in_fl(b2, j2));
                    assert(s0.fl_at(b1, j1) == s2.fl_at(b1, j1));
                    assert(s0.fl_at(b2, j2) == s2.fl_at(b2, j2));
                } else if new1 {
                    assert(s0.in_fl(b2, j2));
                    assert(s0.fl_at(b2, j2) == s2.fl_at(b2, j2));
                    assert(s0.chunk_live(s0.fl_at(b2, j2)));
                    assert(false);
                } else {
                    assert(s0.in_fl(b1, j1));
                    assert(s0.fl_at(b1, j1) == s2.fl_at(b1, j1));
                    assert(s0.chunk_live(s0.fl_at(b1, j1)));
                    assert(false);
                }
            }
        }
        block_key
    }

    /// Serves a dedicated request from one block the caller has obtained
    /// from the device, sized exactly to the request. The block is never
    /// chunked; the handle's `chunk_key` is absent.
    ///
    /// `device_memory` is the raw handle of a fresh device reservation of
    /// exactly `size` bytes; `mapped_base` is its mapped base address when
    /// the pool is host-mappable.
    pub fn allocate_dedicated(
        &mut self,
        device_memory: u64,
        size: u64,
        mapped_base: Option<u64>,
        lifetime: usize,
    ) -> (a: Allocation)
        requires
            old(self).wf(),
            1 <= size,
            mapped_base is Some <==> old(self).is_mappable,
            mapped_base is Some ==> mapped_base->0 + size <= u64::MAX,
        ensures
            final(self).wf(),
            final(self).memory_type_index == old(self).memory_type_index,
            final(self).block_size == old(self).block_size,
            final(self).is_mappable == old(self).is_mappable,
            final(self).max_bucket_index == old(self).max_bucket_index,
            final(self).chunks == old(self).chunks,
            final(self).free_chunks == old(self).free_chunks,
            a.memory_type_index == old(self).memory_type_index,
            a.lifetime == lifetime,
            a.chunk_key is None,
            a.offset == 0,
            a.size == size,
            a.device_memory == device_memory,
            a.mapped_ptr == mapped_base,
            final(self).block_live(a.block_key as int),
            !old(self).block_live(a.block_key as int),
            final(self).block_at(a.block_key as int) == (MemoryBlock {
                device_memory,
                size,
                mapped_base,
                is_dedicated: true,
            }),
            forall|b: int|
                live_at(old(self).blocks@, b) ==> final(self).blocks@[b] == old(self).blocks@[b],
            final(self).spec_used_bytes() == old(self).spec_used_bytes() + size,
            final(self).spec_unused_bytes() == old(self).spec_unused_bytes(),
            final(self).spec_allocation_count() == old(self).spec_allocation_count() + 1,
            final(self).spec_block_count() == old(self).spec_block_count() + 1,
            final(self).spec_unused_range_count() == old(self).spec_unused_range_count(),
    {
        let block = MemoryBlock { device_memory, size, mapped_base, is_dedicated: true };
        let block_key = self.add_block(block);
        proof {
            let s0 = *old(self);
            let s2 = *self;
            assert forall|i: int| #[trigger] s2.chunk_live(i) implies s2.wf_chunk(i) by {
                assert(s0.chunk_live(i));
                assert(s0.wf_chunk(i));
                let c = s0.chunk_at(i);
                assert(c.block_key != block_key);
                assert(s2.block_at(c.block_key as int) == s0.block_at(c.block_key as int));
                if c.chunk_type == ChunkType::Free {
                    let (b, j) = choose|b: int, j: int| s0.in_fl(b, j) && s0.fl_at(b, j) == i;
                    assert(s2.in_fl(b, j) && s2.fl_at(b, j) == i);
                    assert(s2.free_list_has(i));
                }
            }
            assert forall|b: int| #[trigger] s2.block_live(b) implies s2.wf_block(b) by {
                if b != block_key {
                    assert(live_at(s0.blocks@, b));
                    assert(s0.block_live(b));
                    assert(s0.wf_block(b));
                    assert(s2.block_at(b) == s0.block_at(b));
                }
            }
            assert forall|b: int, j: int| s2.in_fl(b, j) implies {
                let k = #[trigger] s2.fl_at(b, j);
                &&& s2.chunk_live(k)
                &&& s2.chunk_at(k).chunk_type == ChunkType::Free
                &&& bucket_of(s2.chunk_at(k).size as int) == b
            } by {
                assert(s0.in_fl(b, j));
                assert(s0.fl_at(b, j) == s2.fl_at(b, j));
                assert(s0.chunk_live(s0.fl_at(b, j)));
            }
            assert forall|b1: int, j1: int, b2: int, j2: int|
                s2.in_fl(b1, j1) && s2.in_fl(b2, j2) && #[trigger] s2.fl_at(b1, j1)
                    == #[trigger] s2.fl_at(b2, j2) implies b1 == b2 && j1 == j2 by {
                assert(s0.in_fl(b1, j1) && s0.in_fl(b2, j2));
                assert(s0.fl_at(b1, j1) == s2.fl_at(b1, j1));
                assert(s0.fl_at(b2, j2) == s2.fl_at(b2, j2));
            }
        }
        Allocation {
            memory_type_index: self.memory_type_index,
            lifetime,
            block_key,
            chunk_key: None,
            device_memory,
            offset: 0,
            size,
            mapped_ptr: mapped_base,
        }
    }

    /// Merges the free chunk above into the free chunk below it: the lower
    /// chunk grows to span both, and the upper chunk's table slot is freed.
    #[verifier::rlimit(100)]
    fn merge_rhs_into_lhs_chunk(&mut self, lhs_chunk_key: usize, rhs_chunk_key: usize)
        requires
            old(self).wf(),
            old(self).chunk_live(lhs_chunk_key as int),
            old(self).chunk_live(rhs_chunk_key as int),
            old(self).chunk_at(lhs_chunk_key as int).chunk_type == ChunkType::Free,
            old(self).chunk_at(rhs_chunk_key as int).chunk_type == ChunkType::Free,
            old(self).chunk_at(lhs_chunk_key as int).next == Some(rhs_chunk_key),
        ensures
            final(self).wf(),
            final(self).blocks == old(self).blocks,
            final(self).memory_type_index == old(self).memory_type_index,
            final(self).block_size == old(self).block_size,
            final(self).is_mappable == old(self).is_mappable,
            final(self).max_bucket_index == old(self).max_bucket_index,
            !final(self).chunk_live(rhs_chunk_key as int),
            final(self).chunk_live(lhs_chunk_key as int),
            final(self).chunk_at(lhs_chunk_key as int) == (MemoryChunk {
                size: (old(self).chunk_at(lhs_chunk_key as int).size + old(self).chunk_at(
                    rhs_chunk_key as int,
                ).size) as u64,
                next: old(self).chunk_at(rhs_chunk_key as int).next,
                ..old(self).chunk_at(lhs_chunk_key as int)
            }),
            final(self).chunks@.len() == old(self).chunks@.len(),
            forall|i: int|
                0 <= i < old(self).chunks@.len() && i != lhs_chunk_key && i != rhs_chunk_key && (
                old(self).chunk_at(rhs_chunk_key as int).next is Some ==> i != old(self).chunk_at(
                    rhs_chunk_key as int,
                ).next->0) ==> final(self).chunks@[i] == old(self).chunks@[i],
            (old(self).chunk_at(rhs_chunk_key as int).next is Some) ==> final(self).chunks@[old(self).chunk_at(rhs_chunk_key as int).next->0 as int] == Some(
                MemoryChunk {
                    previous: Some(lhs_chunk_key),
                    ..old(self).chunk_at(old(self).chunk_at(rhs_chunk_key as int).next->0 as int)
                },
            ),
            final(self).spec_used_bytes() == old(self).spec_used_bytes(),
            final(self).spec_unused_bytes() == old(self).spec_unused_bytes(),
            final(self).spec_allocation_count() == old(self).spec_allocation_count(),
            final(self).spec_block_count() == old(self).spec_block_count(),
            final(self).spec_unused_range_count() == old(self).spec_unused_range_count() - 1,
    {
        let ghost s0 = *old(self);
        let table_len: usize = self.chunks.len();
        proof {
            assert(s0.chunks@.len() == table_len);
        }
        let rhs = self.chunks[rhs_chunk_key].unwrap();
        let lhs = self.chunks[lhs_chunk_key].unwrap();
        proof {
            assert(s0.wf_chunk(lhs_chunk_key as int));
            assert(s0.wf_chunk(rhs_chunk_key as int));
            assert(rhs.previous == Some(lhs_chunk_key));
            assert(lhs.offset + lhs.size == rhs.offset);
            assert(rhs.offset + rhs.size <= s0.block_size);
            lemma_bucket_monotonic(rhs.size as int, s0.block_size as int);
            lemma_bucket_monotonic(lhs.size as int, s0.block_size as int);
            lemma_bucket_monotonic((lhs.size + rhs.size) as int, s0.block_size as int);
            let (b1, j1) = choose|b: int, j: int|
                s0.in_fl(b, j) && s0.fl_at(b, j) == rhs_chunk_key;
            assert(s0.free_chunks@[b1]@[j1] == rhs_chunk_key);
            assert(bucket_of(rhs.size as int) == b1);
            assert(s0.free_chunks@[bucket_of(rhs.size as int) as int]@.contains(rhs_chunk_key));
            let (b2, j2) = choose|b: int, j: int|
                s0.in_fl(b, j) && s0.fl_at(b, j) == lhs_chunk_key;
            assert(s0.free_chunks@[b2]@[j2] == lhs_chunk_key);
            assert(bucket_of(lhs.size as int) == b2);
            assert(s0.free_chunks@[bucket_of(lhs.size as int) as int]@.contains(lhs_chunk_key));
        }
        self.chunks[rhs_chunk_key] = None;
        self.free_chunk_slots.push(rhs_chunk_key);
        proof {
            let br = bucket_of(rhs.size as int) as int;
            assert forall|j1: int, j2: int|
                0 <= j1 < j2 < s0.free_chunks@[br]@.len() implies #[trigger] s0.free_chunks@[
                br
            ]@[j1] != #[trigger] s0.free_chunks@[br]@[j2] by {
                if s0.free_chunks@[br]@[j1] == s0.free_chunks@[br]@[j2] {
                    assert(s0.in_fl(br, j1) && s0.in_fl(br, j2));
                    assert(s0.fl_at(br, j1) == s0.fl_at(br, j2));
                }
            }
        }
        self.remove_from_free_list(rhs_chunk_key, rhs.size);
        let ghost sa = *self;
        proof {
            let br = bucket_of(rhs.size as int) as int;
            let bl = bucket_of(lhs.size as int) as int;
            if bl != br {
                assert(sa.free_chunks@[bl] == s0.free_chunks@[bl]);
                assert forall|j1: int, j2: int|
                    0 <= j1 < j2 < sa.free_chunks@[bl]@.len() implies #[trigger] sa.free_chunks@[
                    bl
                ]@[j1] != #[trigger] sa.free_chunks@[bl]@[j2] by {
                    if sa.free_chunks@[bl]@[j1] == sa.free_chunks@[bl]@[j2] {
                        assert(s0.in_fl(bl, j1) && s0.in_fl(bl, j2));
                        assert(s0.fl_at(bl, j1) == s0.fl_at(bl, j2));
                    }
                }
            }
            assert(sa.free_chunks@[bl]@.contains(lhs_chunk_key));
        }
        self.remove_from_free_list(lhs_chunk_key, lhs.size);
        let ghost sb = *self;
        let merged = MemoryChunk { size: lhs.size + rhs.size, next: rhs.next, ..lhs };
        self.chunks[lhs_chunk_key] = Some(merged);
        self.add_to_free_list(lhs_chunk_key, merged.size);
        let ghost sc = *self;
        if let Some(n) = rhs.next {
            proof {
                assert(s0.chunk_live(n as int));
                assert(n != lhs_chunk_key && n != rhs_chunk_key);
            }
            let mut nn = self.chunks[n].unwrap();
            nn.previous = Some(lhs_chunk_key);
            self.chunks[n] = Some(nn);
        }
        proof {
            let s2 = *self;
            let bl = bucket_of(lhs.size as int) as int;
            let br = bucket_of(rhs.size as int) as int;
            let bm = bucket_of(merged.size as int) as int;
            let nopt = rhs.next;
            // The final chunk table, entry by entry.
            assert(s2.chunks@.len() == s0.chunks@.len());
            assert(s2.chunks@[lhs_chunk_key as int] == Some(merged));
            assert(s2.chunks@[rhs_chunk_key as int] is None);
            assert(forall|i: int|
                0 <= i < s0.chunks@.len() && i != lhs_chunk_key && i != rhs_chunk_key && (nopt
                    is Some ==> i != nopt->0) ==> s2.chunks@[i] == s0.chunks@[i]);
            // The final free lists, bucket by bucket: entries come from the
            // old lists, never name the two merged keys except for the one
            // merged entry pushed last onto its bucket, and stay distinct.
            assert(forall|b: int|
                0 <= b < s0.free_chunks@.len() && b != br && b != bl && b != bm
                    ==> s2.free_chunks@[b] == s0.free_chunks@[b]);
            assert(s2.free_chunks@[bm]@ == sb.free_chunks@[bm]@.push(lhs_chunk_key));
            assert(!sb.free_chunks@[bl]@.contains(lhs_chunk_key));
            assert(!sa.free_chunks@[br]@.contains(rhs_chunk_key));
            // rhs is in no final list; lhs only as the pushed entry.
            assert forall|b: int, j: int| s2.in_fl(b, j) && !(b == bm && j
                == s2.free_chunks@[bm]@.len() - 1) implies {
                let k = #[trigger] s2.fl_at(b, j);
                &&& k != lhs_chunk_key
                &&& k != rhs_chunk_key
                &&& s0.free_chunks@[b]@.contains(k as usize)
            } by {
                let k = s2.fl_at(b, j);
                let kk = s2.free_chunks@[b]@[j];
                // Walk the bucket back through the three list edits.
                if b == bm {
                    assert(sb.free_chunks@[bm]@[j] == kk);
                    assert(sb.free_chunks@[b]@.contains(kk));
                } else {
                    assert(s2.free_chunks@[b] == sb.free_chunks@[b]);
                    assert(sb.free_chunks@[b]@[j] == kk);
                    assert(sb.free_chunks@[b]@.contains(kk));
                }
                assert(kk != lhs_chunk_key) by {
                    if b == bl {
                        assert(!sb.free_chunks@[bl]@.contains(lhs_chunk_key));
                    } else {
                        if sa.free_chunks@[b]@.contains(lhs_chunk_key) {
                            let w = choose|w: int|
                                0 <= w < sa.free_chunks@[b]@.len() && sa.free_chunks@[b]@[w]
                                    == lhs_chunk_key;
                            assert(s0.free_chunks@[b]@.contains(lhs_chunk_key)) by {
                                if b == br {
                                    assert(s0.free_chunks@[br]@.contains(sa.free_chunks@[br]@[w]));
                                } else {
                                    assert(sa.free_chunks@[b] == s0.free_chunks@[b]);
                                }
                            }
                            let v = choose|v: int|
                                0 <= v < s0.free_chunks@[b]@.len() && s0.free_chunks@[b]@[v]
                                    == lhs_chunk_key;
                            assert(s0.in_fl(b, v) && s0.fl_at(b, v) == lhs_chunk_key);
                            assert(bucket_of(s0.chunk_at(lhs_chunk_key as int).size as int) == b);
                            assert(false);
                        }
                        assert(sb.free_chunks@[b] == sa.free_chunks@[b]);
                    }
                }
                assert(kk != rhs_chunk_key) by {
                    if sa.free_chunks@[b]@.contains(rhs_chunk_key) {
                        if b == br {
                            assert(false);
                        } else {
                            assert(sa.free_chunks@[b] == s0.free_chunks@[b]);
                            let v = choose|v: int|
                                0 <= v < s0.free_chunks@[b]@.len() && s0.free_chunks@[b]@[v]
                                    == rhs_chunk_key;
                            assert(s0.in_fl(b, v) && s0.fl_at(b, v) == rhs_chunk_key);
                            assert(bucket_of(s0.chunk_at(rhs_chunk_key as int).size as int) == b);
                            assert(false);
                        }
                    }
                    if b == bl {
                        assert(sb.free_chunks@[bl]@.contains(kk) ==> sa.free_chunks@[
                            bl
                        ]@.contains(kk));
                    } else {
                        assert(sb.free_chunks@[b] == sa.free_chunks@[b]);
                    }
                }
                assert(s0.free_chunks@[b]@.contains(kk)) by {
                    if b == bl {
                        assert(sa.free_chunks@[bl]@.contains(kk));
                    } else {
                        assert(sb.free_chunks@[b] == sa.free_chunks@[b]);
                    }
                    if b == br {
                        assert(sa.free_chunks@[br]@.contains(kk) ==> s0.free_chunks@[
                            br
                        ]@.contains(kk));
                    } else {
                        assert(sa.free_chunks@[b] == s0.free_chunks@[b]);
                    }
                }
            }
            // Clause: every free-list entry is a live free chunk of its
            // bucket.
            assert forall|b: int, j: int| s2.in_fl(b, j) implies {
                let k = #[trigger] s2.fl_at(b, j);
                &&& s2.chunk_live(k)
                &&& s2.chunk_at(k).chunk_type == ChunkType::Free
                &&& bucket_of(s2.chunk_at(k).size as int) == b
            } by {
                let k = s2.fl_at(b, j);
                if b == bm && j == s2.free_chunks@[bm]@.len() - 1 {
                    assert(k == lhs_chunk_key);
                    assert(s2.chunk_at(k) == merged);
                } else {
                    assert(k != lhs_chunk_key && k != rhs_chunk_key);
                    assert(s0.free_chunks@[b]@.contains(k as usize));
                    let w = choose|w: int|
                        0 <= w < s0.free_chunks@[b]@.len() && s0.free_chunks@[b]@[w] == k as usize;
                    assert(s0.in_fl(b, w) && s0.fl_at(b, w) == k);
                    assert(s0.chunk_live(k) && s0.chunk_at(k).chunk_type == ChunkType::Free
                        && bucket_of(s0.chunk_at(k).size as int) == b);
                    if Some(k as usize) == nopt {
                        assert(s2.chunk_at(k).size == s0.chunk_at(k).size);
                        assert(s2.chunk_at(k).chunk_type == s0.chunk_at(k).chunk_type);
                    } else {
                        assert(s2.chunks@[k] == s0.chunks@[k]);
                    }
                }
            }
            // Clause: no key is filed twice.
            assert forall|c1: int, p1: int, c2: int, p2: int|
                s2.in_fl(c1, p1) && s2.in_fl(c2, p2) && #[trigger] s2.fl_at(c1, p1)
                    == #[trigger] s2.fl_at(c2, p2) implies c1 == c2 && p1 == p2 by {
                let k = s2.fl_at(c1, p1);
                assert(bucket_of(s2.chunk_at(k).size as int) == c1);
                assert(bucket_of(s2.chunk_at(k).size as int) == c2);
                let last = s2.free_chunks@[bm]@.len() - 1;
                if k == lhs_chunk_key {
                    assert(c1 == bm && c2 == bm);
                    assert forall|p: int| 0 <= p < last implies s2.free_chunks@[bm]@[p]
                        != lhs_chunk_key by {
                        if s2.free_chunks@[bm]@[p] == lhs_chunk_key {
                            assert(s2.in_fl(bm, p) && s2.fl_at(bm, p) == lhs_chunk_key);
                        }
                    }
                    assert(p1 == last && p2 == last);
                } else {
                    if c1 == bm {
                        assert(p1 != last && p2 != last);
                        assert(sb.free_chunks@[bm]@[p1] == s2.free_chunks@[bm]@[p1]);
                        assert(sb.free_chunks@[bm]@[p2] == s2.free_chunks@[bm]@[p2]);
                        assert(p1 == p2) by {
                            if bm != bl && bm != br && p1 != p2 {
                                assert(sb.free_chunks@[bm] == s0.free_chunks@[bm]);
                                assert(s0.in_fl(bm, p1) && s0.in_fl(bm, p2));
                                assert(s0.fl_at(bm, p1) == s0.fl_at(bm, p2));
                            }
                            if bm != bl && bm == br && p1 != p2 {
                                assert(sb.free_chunks@[bm] == sa.free_chunks@[bm]);
                            }
                        };
                    } else {
                        assert(s2.free_chunks@[c1] == sb.free_chunks@[c1]);
                        if c1 == bl {
                            assert(p1 == p2);
                        } else {
                            assert(sb.free_chunks@[c1] == sa.free_chunks@[c1]);
                            if c1 == br {
                                assert(p1 == p2);
                            } else {
                                assert(sa.free_chunks@[c1] == s0.free_chunks@[c1]);
                                assert(s0.in_fl(c1, p1) && s0.in_fl(c1, p2));
                                assert(s0.fl_at(c1, p1) == s0.fl_at(c1, p2));
                                assert(p1 == p2);
                            }
                        }
                    }
                }
            }
            // Free-list membership survives the merge for every other key.
            assert forall|i: int|
                s0.free_list_has(i) && i != lhs_chunk_key && i != rhs_chunk_key implies
                s2.free_list_has(i) by {
                let (b, j) = choose|b: int, j: int| s0.in_fl(b, j) && s0.fl_at(b, j) == i;
                assert(s0.free_chunks@[b]@.contains(i as usize)) by {
                    assert(s0.free_chunks@[b]@[j] == i as usize);
                }
                assert(sa.free_chunks@[b]@.contains(i as usize)) by {
                    if b != br {
                        assert(sa.free_chunks@[b] == s0.free_chunks@[b]);
                    }
                }
                assert(sb.free_chunks@[b]@.contains(i as usize)) by {
                    if b != bl {
                        assert(sb.free_chunks@[b] == sa.free_chunks@[b]);
                    }
                }
                assert(s2.free_chunks@[b]@.contains(i as usize)) by {
                    if b == bm {
                        let w = choose|w: int|
                            0 <= w < sb.free_chunks@[b]@.len() && sb.free_chunks@[b]@[w]
                                == i as usize;
                        assert(s2.free_chunks@[bm]@[w] == i as usize);
                    } else {
                        assert(s2.free_chunks@[b] == sb.free_chunks@[b]);
                    }
                }
                let w = choose|w: int|
                    0 <= w < s2.free_chunks@[b]@.len() && s2.free_chunks@[b]@[w] == i as usize;
                assert(s2.in_fl(b, w) && s2.fl_at(b, w) == i);
            }
            assert(s2.free_list_has(lhs_chunk_key as int)) by {
                let last = s2.free_chunks@[bm]@.len() - 1;
                assert(s2.in_fl(bm, last) && s2.fl_at(bm, last) == lhs_chunk_key);
            }
            // Clause: every live chunk is well formed.
            lemma_merge_wf_chunks(s0, s2, lhs_chunk_key, rhs_chunk_key, lhs, rhs, merged);
            // Blocks are untouched.
            assert forall|b: int| #[trigger] s2.block_live(b) implies s2.wf_block(b) by {
                assert(s0.block_live(b));
                assert(s0.wf_block(b));
            }
            // Slot stacks.
            assert(valid_slots(s2.chunks@, s2.free_chunk_slots@)) by {
                let slots = s2.free_chunk_slots@;
                assert(slots == s0.free_chunk_slots@.push(rhs_chunk_key));
                assert forall|t: int| 0 <= t < slots.len() implies #[trigger] slots[t]
                    < s2.chunks@.len() && s2.chunks@[slots[t] as int] is None by {
                    if t < slots.len() - 1 {
                        assert(slots[t] == s0.free_chunk_slots@[t]);
                        assert(s0.chunks@[slots[t] as int] is None);
                        assert(slots[t] != lhs_chunk_key && (Some(slots[t]) != nopt));
                    }
                }
                assert forall|t1: int, t2: int| 0 <= t1 < t2 < slots.len() implies slots[t1]
                    != slots[t2] by {
                    if t2 == slots.len() - 1 {
                        assert(s0.chunks@[slots[t1] as int] is None);
                    }
                }
            }
            // Statistics: the merged chunk's free bytes are the two old
            // chunks' free bytes; one free range disappears.
            let m0 = s0.chunks@;
            let m1 = m0.update(rhs_chunk_key as int, None);
            let m2 = m1.update(lhs_chunk_key as int, Some(merged));
            assert(s2.chunks@ =~= if nopt is Some {
                m2.update(nopt->0 as int, s2.chunks@[nopt->0 as int])
            } else {
                m2
            });
            lemma_chunk_stats_update(m0, rhs_chunk_key as int, None);
            lemma_chunk_stats_update(m1, lhs_chunk_key as int, Some(merged));
            if nopt is Some {
                lemma_chunk_stats_update(m2, nopt->0 as int, s2.chunks@[nopt->0 as int]);
                assert(chunk_used_size(m2[nopt->0 as int]) == chunk_used_size(
                    s2.chunks@[nopt->0 as int],
                ));
                assert(chunk_free_size(m2[nopt->0 as int]) == chunk_free_size(
                    s2.chunks@[nopt->0 as int],
                ));
                assert(chunk_alloc_count(m2[nopt->0 as int]) == chunk_alloc_count(
                    s2.chunks@[nopt->0 as int],
                ));
                assert(chunk_free_count(m2[nopt->0 as int]) == chunk_free_count(
                    s2.chunks@[nopt->0 as int],
                ));
            }
        }
    }

    /// Merges `chunk_key` with the given neighbour when that neighbour is
    /// free; the lower of the two survives. Does nothing when there is no
    /// neighbour or it is in use.
    fn merge_free_neighbor(
        &mut self,
        neighbor: Option<usize>,
        chunk_key: usize,
        neighbor_is_lhs: bool,
    )
        requires
            old(self).wf(),
            old(self).chunk_live(chunk_key as int),
            old(self).chunk_at(chunk_key as int).chunk_type == ChunkType::Free,
            neighbor == if neighbor_is_lhs {
                old(self).chunk_at(chunk_key as int).previous
            } else {
                old(self).chunk_at(chunk_key as int).next
            },
        ensures
            final(self).wf(),
            final(self).blocks == old(self).blocks,
            final(self).memory_type_index == old(self).memory_type_index,
            final(self).block_size == old(self).block_size,
            final(self).is_mappable == old(self).is_mappable,
            final(self).max_bucket_index == old(self).max_bucket_index,
            final(self).spec_used_bytes() == old(self).spec_used_bytes(),
            final(self).spec_unused_bytes() == old(self).spec_unused_bytes(),
            final(self).spec_allocation_count() == old(self).spec_allocation_count(),
            old(self).spec_unused_range_count() - 1 <= final(self).spec_unused_range_count()
                <= old(self).spec_unused_range_count(),
            !neighbor_is_lhs ==> {
                &&& final(self).chunk_live(chunk_key as int)
                &&& final(self).chunk_at(chunk_key as int).chunk_type == ChunkType::Free
                &&& final(self).chunk_at(chunk_key as int).offset == old(self).chunk_at(
                    chunk_key as int,
                ).offset
                &&& final(self).chunk_at(chunk_key as int).previous == old(self).chunk_at(
                    chunk_key as int,
                ).previous
            },
            !neighbor_is_lhs && (old(self).chunk_at(chunk_key as int).previous is Some)
                ==> final(self).chunks@[old(self).chunk_at(chunk_key as int).previous->0 as int]
                == old(self).chunks@[old(self).chunk_at(chunk_key as int).previous->0 as int],
            (neighbor is Some) && old(self).chunk_at(neighbor->0 as int).chunk_type
                == ChunkType::Free ==> !final(self).chunk_live(
                if neighbor_is_lhs {
                    chunk_key as int
                } else {
                    neighbor->0 as int
                },
            ),
            neighbor_is_lhs ==> forall|i: int|
                !old(self).chunk_live(i) ==> !final(self).chunk_live(i),
            forall|i: int|
                #[trigger] old(self).chunk_live(i) && i != chunk_key && old(self).chunk_at(
                    i,
                ).chunk_type != ChunkType::Free ==> final(self).chunk_live(i) && final(self).chunk_at(i).offset == old(self).chunk_at(i).offset && final(self).chunk_at(
                    i,
                ).size == old(self).chunk_at(i).size && final(self).chunk_at(i).chunk_type == old(self).chunk_at(i).chunk_type && final(self).chunk_at(i).block_key == old(self).chunk_at(i).block_key,
            !final(self).chunk_live(chunk_key as int) || final(self).chunk_at(
                chunk_key as int,
            ).chunk_type == ChunkType::Free,
    {
        if let Some(neighbor_key) = neighbor {
            proof {
                assert(old(self).wf_chunk(chunk_key as int));
            }
            let n = self.chunks[neighbor_key].unwrap();
            if n.chunk_type == ChunkType::Free {
                if neighbor_is_lhs {
                    self.merge_rhs_into_lhs_chunk(neighbor_key, chunk_key);
                    proof {
                        assert forall|i: int| !old(self).chunk_live(i) implies !self.chunk_live(
                            i,
                        ) by {
                            if self.chunk_live(i) {
                                assert(i != chunk_key);
                                if Some(i as usize) != old(self).chunk_at(
                                    chunk_key as int,
                                ).next {
                                    assert(self.chunks@[i] == old(self).chunks@[i]);
                                } else {
                                    assert(old(self).chunk_live(i));
                                }
                            }
                        }
                    }
                } else {
                    let ghost s0 = *old(self);
                    self.merge_rhs_into_lhs_chunk(chunk_key, neighbor_key);
                    proof {
                        if s0.chunk_at(chunk_key as int).previous is Some {
                            let p = s0.chunk_at(chunk_key as int).previous->0;
                            assert(s0.chunk_live(p as int));
                            assert(s0.wf_chunk(p as int));
                            assert(p != chunk_key && p != neighbor_key);
                            if s0.chunk_at(neighbor_key as int).next is Some {
                                let m = s0.chunk_at(neighbor_key as int).next->0;
                                assert(p != m) by {
                                    if p == m {
                                        assert(s0.chunk_live(neighbor_key as int));
                                        assert(s0.wf_chunk(neighbor_key as int));
                                        assert(s0.chunk_at(m as int).offset == s0.chunk_at(
                                            neighbor_key as int,
                                        ).offset + s0.chunk_at(neighbor_key as int).size);
                                        assert(s0.chunk_at(p as int).offset + s0.chunk_at(
                                            p as int,
                                        ).size == s0.chunk_at(chunk_key as int).offset);
                                    }
                                }
                            }
                            assert(self.chunks@[p as int] == s0.chunks@[p as int]);
                        }
                    }
                }
            }
        }
    }

    /// Frees the allocated chunk at `chunk_key`: the chunk becomes free, is
    /// filed by its size, and is merged with its upper neighbour and then
    /// its lower neighbour when they are free.
    ///
    /// Fails with `CantFindChunk`, changing nothing, when the key does not
    /// name a live, allocated chunk — in particular when it names a chunk
    /// that is already free, so freeing the same handle twice is refused
    /// rather than corrupting the bookkeeping.
    #[verifier::rlimit(100)]
    pub fn free_chunk(&mut self, chunk_key: usize) -> (r: Result<(), AllocatorError>)
        requires
            old(self).wf(),
        ensures
            final(self).wf(),
            r is Ok <==> old(self).chunk_live(chunk_key as int) && old(self).chunk_at(
                chunk_key as int,
            ).chunk_type != ChunkType::Free,
            r is Err ==> *final(self) == *old(self) && r == Err::<(), AllocatorError>(
                AllocatorError::CantFindChunk,
            ),
            final(self).blocks == old(self).blocks,
            final(self).memory_type_index == old(self).memory_type_index,
            final(self).block_size == old(self).block_size,
            final(self).is_mappable == old(self).is_mappable,
            final(self).max_bucket_index == old(self).max_bucket_index,
            final(self).spec_block_count() == old(self).spec_block_count(),
            r is Ok ==> {
                let freed = old(self).chunk_at(chunk_key as int).size;
                &&& final(self).spec_used_bytes() == old(self).spec_used_bytes() - freed
                &&& final(self).spec_unused_bytes() == old(self).spec_unused_bytes() + freed
                &&& final(self).spec_allocation_count() == old(self).spec_allocation_count() - 1
                &&& (!final(self).chunk_live(chunk_key as int) || final(self).chunk_at(
                    chunk_key as int,
                ).chunk_type == ChunkType::Free)
                &&& ((old(self).chunk_at(chunk_key as int).next is Some) && old(self).chunk_at(
                    old(self).chunk_at(chunk_key as int).next->0 as int,
                ).chunk_type == ChunkType::Free ==> !final(self).chunk_live(
                    old(self).chunk_at(chunk_key as int).next->0 as int,
                ))
                &&& ((old(self).chunk_at(chunk_key as int).previous is Some) && old(self).chunk_at(old(self).chunk_at(chunk_key as int).previous->0 as int).chunk_type
                    == ChunkType::Free ==> !final(self).chunk_live(chunk_key as int))
                &&& forall|i: int|
                    #[trigger] old(self).chunk_live(i) && i != chunk_key && old(self).chunk_at(
                        i,
                    ).chunk_type != ChunkType::Free ==> final(self).chunk_live(i) && final(self).chunk_at(i).offset == old(self).chunk_at(i).offset
                        && final(self).chunk_at(i).size == old(self).chunk_at(i).size
                        && final(self).chunk_at(i).chunk_type == old(self).chunk_at(i).chunk_type
                        && final(self).chunk_at(i).block_key == old(self).chunk_at(i).block_key
            },
    {
        let ghost s0 = *old(self);
        if chunk_key >= self.chunks.len() {
            return Err(AllocatorError::CantFindChunk);
        }
        let c = match self.chunks[chunk_key] {
            Some(c) => c,
            None => {
                return Err(AllocatorError::CantFindChunk);
            },
        };
        if c.chunk_type == ChunkType::Free {
            return Err(AllocatorError::CantFindChunk);
        }
        proof {
            assert(s0.chunk_live(chunk_key as int));
            assert(s0.wf_chunk(chunk_key as int));
            lemma_bucket_monotonic(c.size as int, s0.block_size as int);
        }
        let freed = MemoryChunk { chunk_type: ChunkType::Free, ..c };
        self.chunks[chunk_key] = Some(freed);
        self.add_to_free_list(chunk_key, c.size);
        proof {
            let s1 = *self;
            let bf = bucket_of(c.size as int) as int;
            lemma_chunk_stats_update(s0.chunks@, chunk_key as int, Some(freed));
            assert(s1.chunks@ =~= s0.chunks@.update(chunk_key as int, Some(freed)));
            // The freed chunk was in no free list before; it is filed now.
            assert forall|b: int, j: int| s1.in_fl(b, j) implies {
                let k = #[trigger] s1.fl_at(b, j);
                &&& s1.chunk_live(k)
                &&& s1.chunk_at(k).chunk_type == ChunkType::Free
                &&& bucket_of(s1.chunk_at(k).size as int) == b
            } by {
                if b == bf && j == s1.free_chunks@[bf]@.len() - 1 {
                    assert(s1.fl_at(b, j) == chunk_key);
                } else {
                    assert(s0.in_fl(b, j));
                    assert(s0.fl_at(b, j) == s1.fl_at(b, j));
                    let k = s0.fl_at(b, j);
                    assert(s0.chunk_live(k));
                    assert(k != chunk_key);
                    assert(s1.chunks@[k] == s0.chunks@[k]);
                }
            }
            assert forall|b1: int, j1: int, b2: int, j2: int|
                s1.in_fl(b1, j1) && s1.in_fl(b2, j2) && #[trigger] s1.fl_at(b1, j1)
                    == #[trigger] s1.fl_at(b2, j2) implies b1 == b2 && j1 == j2 by {
                let new1 = b1 == bf && j1 == s1.free_chunks@[bf]@.len() - 1;
                let new2 = b2 == bf && j2 == s1.free_chunks@[bf]@.len() - 1;
                if !new1 && !new2 {
                    assert(s0.in_fl(b1, j1) && s0.in_fl(b2, j2));
                    assert(s0.fl_at(b1, j1) == s1.fl_at(b1, j1));
                    assert(s0.fl_at(b2, j2) == s1.fl_at(b2, j2));
                } else if new1 && !new2 {
                    assert(s0.in_fl(b2, j2));
                    assert(s0.fl_at(b2, j2) == s1.fl_at(b2, j2));
                    assert(s0.chunk_at(s0.fl_at(b2, j2)).chunk_type == ChunkType::Free);
                    assert(false);
                } else if !new1 && new2 {
                    assert(s0.in_fl(b1, j1));
                    assert(s0.fl_at(b1, j1) == s1.fl_at(b1, j1));
                    assert(s0.chunk_at(s0.fl_at(b1, j1)).chunk_type == ChunkType::Free);
                    assert(false);
                }
            }
            assert forall|i: int| #[trigger] s1.chunk_live(i) implies s1.wf_chunk(i) by {
                if i == chunk_key {
                    assert(s1.free_list_has(i)) by {
                        let last = s1.free_chunks@[bf]@.len() - 1;
                        assert(s1.in_fl(bf, last) && s1.fl_at(bf, last) == chunk_key);
                    }
                    assert(s1.blocks@ == s0.blocks@);
                    match freed.previous {
                        Some(p) => {
                            assert(s0.chunk_live(p as int));
                            assert(s1.chunks@[p as int] == s0.chunks@[p as int]);
                        },
                        None => {},
                    }
                    match freed.next {
                        Some(n) => {
                            assert(s0.chunk_live(n as int));
                            assert(s1.chunks@[n as int] == s0.chunks@[n as int]);
                        },
                        None => {},
                    }
                } else {
                    assert(s0.chunk_live(i));
                    assert(s0.wf_chunk(i));
                    let ci = s0.chunk_at(i);
                    assert(s1.chunks@[i] == s0.chunks@[i]);
                    match ci.previous {
                        Some(p) => {
                            if p == chunk_key {
                                assert(s1.chunk_at(p as int).next == Some(i as usize));
                                assert(s1.chunk_at(p as int).offset == c.offset);
                                assert(s1.chunk_at(p as int).size == c.size);
                            } else {
                                assert(s0.chunk_live(p as int));
                                assert(s1.chunks@[p as int] == s0.chunks@[p as int]);
                            }
                        },
                        None => {},
                    }
                    match ci.next {
                        Some(n) => {
                            if n == chunk_key {
                                assert(s1.chunk_at(n as int).previous == Some(i as usize));
                                assert(s1.chunk_at(n as int).offset == c.offset);
                            } else {
                                assert(s0.chunk_live(n as int));
                                assert(s1.chunks@[n as int] == s0.chunks@[n as int]);
                            }
                        },
                        None => {},
                    }
                    if ci.chunk_type == ChunkType::Free {
                        let (b, j) = choose|b: int, j: int|
                            s0.in_fl(b, j) && s0.fl_at(b, j) == i;
                        assert(s1.in_fl(b, j) && s1.fl_at(b, j) == i);
                        assert(s1.free_list_has(i));
                    }
                }
            }
            assert forall|b: int| #[trigger] s1.block_live(b) implies s1.wf_block(b) by {
                assert(s0.block_live(b));
                assert(s0.wf_block(b));
            }
        }
        let ghost s1 = *self;
        self.merge_free_neighbor(c.next, chunk_key, false);
        let ghost s2 = *self;
        self.merge_free_neighbor(c.previous, chunk_key, true);
        proof {
            if c.next is Some && s0.chunk_at(c.next->0 as int).chunk_type == ChunkType::Free {
                let n = c.next->0;
                assert(s1.chunk_at(n as int).chunk_type == ChunkType::Free) by {
                    assert(n != chunk_key);
                    assert(s1.chunks@[n as int] == s0.chunks@[n as int]);
                }
                assert(!s2.chunk_live(n as int));
                assert(!self.chunk_live(n as int));
            }
            if c.previous is Some && s0.chunk_at(c.previous->0 as int).chunk_type
                == ChunkType::Free {
                let p = c.previous->0;
                assert(s0.wf_chunk(chunk_key as int));
                assert(p != chunk_key);
                assert(s1.chunks@[p as int] == s0.chunks@[p as int]);
                assert(s2.chunks@[p as int] == s1.chunks@[p as int]);
                assert(s2.chunk_at(chunk_key as int).previous == c.previous);
                assert(s2.chunk_at(p as int).chunk_type == ChunkType::Free);
                assert(!self.chunk_live(chunk_key as int));
            }
            assert forall|i: int|
                #[trigger] s0.chunk_live(i) && i != chunk_key && s0.chunk_at(i).chunk_type
                    != ChunkType::Free implies self.chunk_live(i) && self.chunk_at(i).offset
                == s0.chunk_at(i).offset && self.chunk_at(i).size == s0.chunk_at(i).size
                && self.chunk_at(i).chunk_type == s0.chunk_at(i).chunk_type && self.chunk_at(
                i,
            ).block_key == s0.chunk_at(i).block_key by {
                assert(s1.chunks@[i] == s0.chunks@[i]);
                assert(s1.chunk_live(i));
                assert(s2.chunk_live(i));
            }
        }
        Ok(())
    }

    /// Frees the dedicated block at `block_key`, handing its record back so
    /// the caller can release the device memory. The chunk bookkeeping is
    /// never touched: a dedicated block has no chunks.
    ///
    /// Fails with `CantFindBlock`, changing nothing, when the key does not
    /// name a live, dedicated block — freeing a chunked block through this
    /// entry would orphan its chunks, so it is refused.
    pub fn free_block(&mut self, block_key: usize) -> (r: Result<MemoryBlock, AllocatorError>)
        requires
            old(self).wf(),
        ensures
            final(self).wf(),
            r is Ok <==> old(self).block_live(block_key as int) && old(self).block_at(
                block_key as int,
            ).is_dedicated,
            r is Err ==> *final(self) == *old(self) && r == Err::<MemoryBlock, AllocatorError>(
                AllocatorError::CantFindBlock,
            ),
            final(self).chunks == old(self).chunks,
            final(self).free_chunks == old(self).free_chunks,
            final(self).memory_type_index == old(self).memory_type_index,
            final(self).block_size == old(self).block_size,
            final(self).is_mappable == old(self).is_mappable,
            final(self).max_bucket_index == old(self).max_bucket_index,
            r is Ok ==> {
                let blk = old(self).block_at(block_key as int);
                &&& r == Ok::<MemoryBlock, AllocatorError>(blk)
                &&& !final(self).block_live(block_key as int)
                &&& forall|b: int|
                    live_at(old(self).blocks@, b) && b != block_key ==> final(self).blocks@[b]
                        == old(self).blocks@[b]
                &&& final(self).spec_used_bytes() == old(self).spec_used_bytes() - blk.size
                &&& final(self).spec_unused_bytes() == old(self).spec_unused_bytes()
                &&& final(self).spec_allocation_count() == old(self).spec_allocation_count() - 1
                &&& final(self).spec_block_count() == old(self).spec_block_count() - 1
                &&& final(self).spec_unused_range_count() == old(self).spec_unused_range_count()
            },
    {
        let ghost s0 = *old(self);
        if block_key >= self.blocks.len() {
            return Err(AllocatorError::CantFindBlock);
        }
        let blk = match self.blocks[block_key] {
            Some(blk) => blk,
            None => {
                return Err(AllocatorError::CantFindBlock);
            },
        };
        if !blk.is_dedicated {
            return Err(AllocatorError::CantFindBlock);
        }
        self.blocks[block_key] = None;
        self.free_block_slots.push(block_key);
        proof {
            let s2 = *self;
            assert(s0.block_live(block_key as int));
            lemma_block_stats_update(s0.blocks@, block_key as int, None);
            assert(s2.blocks@ =~= s0.blocks@.update(block_key as int, None));
            assert forall|i: int| #[trigger] s2.chunk_live(i) implies s2.wf_chunk(i) by {
                assert(s0.chunk_live(i));
                assert(s0.wf_chunk(i));
                let c = s0.chunk_at(i);
                assert(c.block_key != block_key) by {
                    if c.block_key == block_key {
                        assert(!s0.block_at(block_key as int).is_dedicated);
                    }
                }
                assert(s2.blocks@[c.block_key as int] == s0.blocks@[c.block_key as int]);
                if c.chunk_type == ChunkType::Free {
                    let (b, j) = choose|b: int, j: int| s0.in_fl(b, j) && s0.fl_at(b, j) == i;
                    assert(s2.in_fl(b, j) && s2.fl_at(b, j) == i);
                    assert(s2.free_list_has(i));
                }
            }
            assert forall|b: int| #[trigger] s2.block_live(b) implies s2.wf_block(b) by {
                assert(b != block_key);
                assert(s0.block_live(b));
                assert(s0.wf_block(b));
                assert(s2.blocks@[b] == s0.blocks@[b]);
            }
            assert forall|b: int, j: int| s2.in_fl(b, j) implies {
                let k = #[trigger] s2.fl_at(b, j);
                &&& s2.chunk_live(k)
                &&& s2.chunk_at(k).chunk_type == ChunkType::Free
                &&& bucket_of(s2.chunk_at(k).size as int) == b
            } by {
                assert(s0.in_fl(b, j));
                assert(s0.fl_at(b, j) == s2.fl_at(b, j));
                assert(s0.chunk_live(s0.fl_at(b, j)));
            }
            assert forall|b1: int, j1: int, b2: int, j2: int|
                s2.in_fl(b1, j1) && s2.in_fl(b2, j2) && #[trigger] s2.fl_at(b1, j1)
                    == #[trigger] s2.fl_at(b2, j2) implies b1 == b2 && j1 == j2 by {
                assert(s0.in_fl(b1, j1) && s0.in_fl(b2, j2));
                assert(s0.fl_at(b1, j1) == s2.fl_at(b1, j1));
                assert(s0.fl_at(b2, j2) == s2.fl_at(b2, j2));
            }
            assert(valid_slots(s2.blocks@, s2.free_block_slots@)) by {
                let slots = s2.free_block_slots@;
                assert(slots == s0.free_block_slots@.push(block_key));
                assert forall|t: int| 0 <= t < slots.len() implies #[trigger] slots[t]
                    < s2.blocks@.len() && s2.blocks@[slots[t] as int] is None by {
                    if t < slots.len() - 1 {
                        assert(slots[t] == s0.free_block_slots@[t]);
                        assert(s0.blocks@[slots[t] as int] is None);
                    }
                }
                assert forall|t1: int, t2: int| 0 <= t1 < t2 < slots.len() implies slots[t1]
                    != slots[t2] by {
                    if t2 == slots.len() - 1 {
                        assert(s0.blocks@[slots[t1] as int] is None);
                    }
                }
            }
        }
        Ok(blk)
    }

    /// Empties the pool, handing back the records of all live blocks so the
    /// caller can release their device memory.
    pub fn cleanup(&mut self) -> (r: Vec<MemoryBlock>)
        requires
            old(self).wf(),
        ensures
            final(self).wf(),
            final(self).memory_type_index == old(self).memory_type_index,
            final(self).block_size == old(self).block_size,
            final(self).is_mappable == old(self).is_mappable,
            final(self).max_bucket_index == old(self).max_bucket_index,
            r@ == live_blocks_of(old(self).blocks@),
            r@.len() == old(self).spec_block_count(),
            final(self).chunks@.len() == 0,
            final(self).blocks@.len() == 0,
            final(self).spec_used_bytes() == 0,
            final(self).spec_unused_bytes() == 0,
            final(self).spec_allocation_count() == 0,
            final(self).spec_block_count() == 0,
            final(self).spec_unused_range_count() == 0,
    {
        let ghost s0 = *old(self);
        let mut out: Vec<MemoryBlock> = Vec::new();
        let mut i: usize = 0;
        let n = self.blocks.len();
        proof {
            assert(s0.blocks@.take(0) =~= Seq::<Option<MemoryBlock>>::empty());
            lemma_live_blocks_count(s0.blocks@.take(0));
        }
        while i < n
            invariant
                self.blocks@ == s0.blocks@,
                n == s0.blocks@.len(),
                0 <= i <= n,
                out@ == live_blocks_of(s0.blocks@.take(i as int)),
                out@.len() == sum_ints(
                    s0.blocks@.take(i as int).map_values(|b| block_live_count(b)),
                ),
            decreases n - i,
        {
            proof {
                assert(s0.blocks@.take(i + 1).drop_last() =~= s0.blocks@.take(i as int));
                assert(s0.blocks@.take(i + 1).map_values(|b| block_live_count(b)) =~= s0.blocks@.take(
                    i as int,
                ).map_values(|b| block_live_count(b)).push(block_live_count(s0.blocks@[i as int])));
                lemma_sum_push(
                    s0.blocks@.take(i as int).map_values(|b| block_live_count(b)),
                    block_live_count(s0.blocks@[i as int]),
                );
            }
            if let Some(blk) = self.blocks[i] {
                out.push(blk);
            }
            i = i + 1;
        }
        self.blocks.clear();
        self.chunks.clear();
        self.free_block_slots.clear();
        self.free_chunk_slots.clear();
        let buckets = self.free_chunks.len();
        let mut b: usize = 0;
        while b < buckets
            invariant
                buckets == self.free_chunks@.len(),
                0 <= b <= buckets,
                self.blocks@.len() == 0,
                self.chunks@.len() == 0,
                self.free_block_slots@.len() == 0,
                self.free_chunk_slots@.len() == 0,
                self.memory_type_index == s0.memory_type_index,
                self.block_size == s0.block_size,
                self.is_mappable == s0.is_mappable,
                self.max_bucket_index == s0.max_bucket_index,
                self.free_chunks@.len() == s0.free_chunks@.len(),
                forall|bb: int| 0 <= bb < b ==> #[trigger] self.free_chunks@[bb]@.len() == 0,
            decreases buckets - b,
        {
            self.free_chunks[b].clear();
            b = b + 1;
        }
        proof {
            let s2 = *self;
            assert(s0.blocks@.take(n as int) =~= s0.blocks@);
            lemma_live_blocks_count(s0.blocks@);
            assert(s2.chunks@.map_values(|c| chunk_used_size(c)) =~= Seq::<int>::empty());
            assert(s2.chunks@.map_values(|c| chunk_free_size(c)) =~= Seq::<int>::empty());
            assert(s2.chunks@.map_values(|c| chunk_alloc_count(c)) =~= Seq::<int>::empty());
            assert(s2.chunks@.map_values(|c| chunk_free_count(c)) =~= Seq::<int>::empty());
            assert(s2.blocks@.map_values(|b| block_dedicated_size(b)) =~= Seq::<int>::empty());
            assert(s2.blocks@.map_values(|b| block_dedicated_count(b)) =~= Seq::<int>::empty());
            assert(s2.blocks@.map_values(|b| block_live_count(b)) =~= Seq::<int>::empty());
        }
        out
    }

    /// Evaluates one free chunk as a candidate for a request: returns the
    /// offset the request would get there, or `None` when the request does
    /// not fit in the chunk under the alignment and granularity rules.
    fn eval_candidate(
        &self,
        key: usize,
        size: u64,
        alignment: u64,
        granularity: u64,
        chunk_type: ChunkType,
    ) -> (r: Option<u64>)
        requires
            self.wf(),
            self.chunk_live(key as int),
            1 <= size,
            is_pow2(alignment),
            is_pow2(granularity),
        ensures
            r is Some <==> self.cand_fits(
                key as int,
                size as int,
                alignment as int,
                granularity as int,
                chunk_type,
            ),
            r is Some ==> r->0 == self.cand_offset(
                key as int,
                alignment as int,
                granularity as int,
                chunk_type,
            ),
    {
        proof {
            assert(self.wf_chunk(key as int));
            lemma_pow2_bounds(alignment);
            lemma_pow2_bounds(granularity);
        }
        let c = self.chunks[key].unwrap();
        let end = c.offset + c.size;
        let a0 = align_up(c.offset, alignment);
        proof {
            lemma_align_up_props(c.offset as int, alignment as int);
            lemma_align_up_props(a0 as int, granularity as int);
        }
        if a0 > end {
            return None;
        }
        let mut a = a0;
        if let Some(p) = c.previous {
            let pc = self.chunks[p].unwrap();
            if pc.chunk_type.granularity_conflict(chunk_type) && is_on_same_page(
                pc.offset,
                pc.size,
                a0,
                granularity,
            ) {
                a = align_up(a0, granularity);
            }
        }
        proof {
            assert(a == self.cand_offset(
                key as int,
                alignment as int,
                granularity as int,
                chunk_type,
            ));
        }
        if a > end || end - a < size {
            return None;
        }
        if let Some(n) = c.next {
            let nc = self.chunks[n].unwrap();
            if nc.chunk_type.granularity_conflict(chunk_type) && is_on_same_page(
                nc.offset,
                nc.size,
                a,
                granularity,
            ) {
                return None;
            }
        }
        Some(a)
    }

    /// Scans one bucket's free list for the best fit: the fitting chunk
    /// leaving the least over, the first filed of equally good ones.
    fn find_best_fit_in_bucket(
        &self,
        bucket: usize,
        size: u64,
        alignment: u64,
        granularity: u64,
        chunk_type: ChunkType,
    ) -> (r: Option<BestFitCandidate>)
        requires
            self.wf(),
            bucket < self.free_chunks@.len(),
            1 <= size,
            is_pow2(alignment),
            is_pow2(granularity),
        ensures
            r is None ==> !self.bucket_has_fit(
                bucket as int,
                size as int,
                alignment as int,
                granularity as int,
                chunk_type,
            ),
            r matches Some(c) ==> {
                let b = bucket as int;
                let sz = size as int;
                let al = alignment as int;
                let gr = granularity as int;
                &&& 0 <= c.free_list_index < self.free_chunks@[b]@.len()
                &&& self.fl_at(b, c.free_list_index as int) == c.key
                &&& self.cand_fits(c.key as int, sz, al, gr, chunk_type)
                &&& c.aligned_offset == self.cand_offset(c.key as int, al, gr, chunk_type)
                &&& c.free_size == self.cand_leftover(c.key as int, sz, al, gr, chunk_type)
                &&& forall|j: int|
                    0 <= j < self.free_chunks@[b]@.len() && self.cand_fits(
                        #[trigger] self.fl_at(b, j),
                        sz,
                        al,
                        gr,
                        chunk_type,
                    ) ==> self.cand_leftover(self.fl_at(b, j), sz, al, gr, chunk_type)
                        >= c.free_size
                &&& forall|j: int|
                    0 <= j < c.free_list_index && self.cand_fits(
                        #[trigger] self.fl_at(b, j),
                        sz,
                        al,
                        gr,
                        chunk_type,
                    ) ==> self.cand_leftover(self.fl_at(b, j), sz, al, gr, chunk_type) > c.free_size
            },
    {
        let ghost b = bucket as int;
        let ghost sz = size as int;
        let ghost al = alignment as int;
        let ghost gr = granularity as int;
        let fl_len = self.free_chunks[bucket].len();
        let mut best: Option<BestFitCandidate> = None;
        let mut j: usize = 0;
        while j < fl_len
            invariant
                self.wf(),
                bucket < self.free_chunks@.len(),
                b == bucket as int && sz == size as int && al == alignment as int && gr
                    == granularity as int,
                1 <= size,
                is_pow2(alignment),
                is_pow2(granularity),
                fl_len == self.free_chunks@[b]@.len(),
                0 <= j <= fl_len,
                best is None ==> forall|jj: int|
                    0 <= jj < j ==> !self.cand_fits(
                        #[trigger] self.fl_at(b, jj),
                        sz,
                        al,
                        gr,
                        chunk_type,
                    ),
                best matches Some(c) ==> {
                    &&& 0 <= c.free_list_index < j
                    &&& self.fl_at(b, c.free_list_index as int) == c.key
                    &&& self.cand_fits(c.key as int, sz, al, gr, chunk_type)
                    &&& c.aligned_offset == self.cand_offset(c.key as int, al, gr, chunk_type)
                    &&& c.free_size == self.cand_leftover(c.key as int, sz, al, gr, chunk_type)
                    &&& forall|jj: int|
                        0 <= jj < j && self.cand_fits(
                            #[trigger] self.fl_at(b, jj),
                            sz,
                            al,
                            gr,
                            chunk_type,
                        ) ==> self.cand_leftover(self.fl_at(b, jj), sz, al, gr, chunk_type)
                            >= c.free_size
                    &&& forall|jj: int|
                        0 <= jj < c.free_list_index && self.cand_fits(
                            #[trigger] self.fl_at(b, jj),
                            sz,
                            al,
                            gr,
                            chunk_type,
                        ) ==> self.cand_leftover(self.fl_at(b, jj), sz, al, gr, chunk_type)
                            > c.free_size
                },
            decreases fl_len - j,
        {
            let key = self.free_chunks[bucket][j];
            proof {
                assert(self.in_fl(b, j as int));
                assert(self.fl_at(b, j as int) == key);
                assert(self.chunk_live(key as int));
                assert(self.wf_chunk(key as int));
            }
            match self.eval_candidate(key, size, alignment, granularity, chunk_type) {
                Some(aligned_offset) => {
                    let c = self.chunks[key].unwrap();
                    let free_size = c.offset + c.size - aligned_offset - size;
                    proof {
                        assert(free_size == self.cand_leftover(key as int, sz, al, gr, chunk_type));
                    }
                    let replace = match &best {
                        Some(cand) => free_size < cand.free_size,
                        None => true,
                    };
                    if replace {
                        best = Some(
                            BestFitCandidate { key, free_list_index: j, aligned_offset, free_size },
                        );
                    }
                },
                None => {},
            }
            j = j + 1;
        }
        best
    }

    /// Serves a request from the chosen free chunk: the chunk leaves its
    /// free list and becomes the allocation's chunk, spanning from its old
    /// offset (alignment padding included) to the end of the granted
    /// range; the bytes above, if any, become a new free chunk filed by
    /// its own size.
    #[verifier::rlimit(60)]
    fn split_at_candidate(
        &mut self,
        bucket: usize,
        candidate: BestFitCandidate,
        size: u64,
        chunk_type: ChunkType,
        lifetime: usize,
    ) -> (a: Allocation)
        requires
            old(self).wf(),
            bucket < old(self).free_chunks@.len(),
            candidate.free_list_index < old(self).free_chunks@[bucket as int]@.len(),
            old(self).fl_at(bucket as int, candidate.free_list_index as int) == candidate.key,
            1 <= size,
            chunk_type != ChunkType::Free,
            old(self).chunk_at(candidate.key as int).offset <= candidate.aligned_offset,
            candidate.aligned_offset + size + candidate.free_size == old(self).chunk_at(
                candidate.key as int,
            ).offset + old(self).chunk_at(candidate.key as int).size,
        ensures
            final(self).wf(),
            final(self).blocks == old(self).blocks,
            final(self).memory_type_index == old(self).memory_type_index,
            final(self).block_size == old(self).block_size,
            final(self).is_mappable == old(self).is_mappable,
            final(self).max_bucket_index == old(self).max_bucket_index,
            ({
                let c = old(self).chunk_at(candidate.key as int);
                let reserved = candidate.aligned_offset - c.offset + size;
                &&& final(self).spec_used_bytes() == old(self).spec_used_bytes() + reserved
                &&& final(self).spec_unused_bytes() == old(self).spec_unused_bytes() - reserved
                &&& final(self).spec_allocation_count() == old(self).spec_allocation_count() + 1
                &&& final(self).spec_unused_range_count() == old(self).spec_unused_range_count() - (
                    if candidate.free_size == 0 {
                        1int
                    } else {
                        0int
                    }
                )
                &&& final(self).chunk_live(candidate.key as int)
                &&& final(self).chunk_at(candidate.key as int).chunk_type == chunk_type
                &&& final(self).chunk_at(candidate.key as int).offset == c.offset
                &&& final(self).chunk_at(candidate.key as int).size == reserved
                &&& final(self).chunk_at(candidate.key as int).block_key == c.block_key
                &&& final(self).chunk_at(candidate.key as int).previous == c.previous
                &&& final(self).chunks@.len() >= old(self).chunks@.len()
                &&& final(self).free_chunks@.len() == old(self).free_chunks@.len()
                &&& (forall|i: int|
                    live_at(old(self).chunks@, i) && i != candidate.key && (c.next is Some
                        ==> i != c.next->0) ==> final(self).chunks@[i] == old(self).chunks@[i])
                &&& (candidate.free_size == 0 ==> {
                    &&& final(self).chunks@.len() == old(self).chunks@.len()
                    &&& final(self).chunk_at(candidate.key as int).next == c.next
                    &&& (c.next is Some ==> final(self).chunks@[c.next->0 as int] == old(
                        self,
                    ).chunks@[c.next->0 as int])
                })
                &&& (candidate.free_size > 0 ==> (exists|f: int|
                    {
                        &&& 0 <= f < final(self).chunks@.len()
                        &&& !live_at(old(self).chunks@, f)
                        &&& final(self).chunk_at(candidate.key as int).next == Some(f as usize)
                        &&& #[trigger] final(self).chunks@[f] == Some(
                            MemoryChunk {
                                block_key: c.block_key,
                                size: candidate.free_size,
                                offset: (candidate.aligned_offset + size) as u64,
                                previous: Some(candidate.key),
                                next: c.next,
                                chunk_type: ChunkType::Free,
                            },
                        )
                        &&& final(self).free_chunks@[bucket_of(
                            candidate.free_size as int,
                        ) as int]@.contains(f as usize)
                        &&& (c.next is Some ==> final(self).chunks@[c.next->0 as int] == Some(
                            MemoryChunk {
                                previous: Some(f as usize),
                                ..old(self).chunk_at(c.next->0 as int)
                            },
                        ))
                    }))
                &&& a == (Allocation {
                    memory_type_index: old(self).memory_type_index,
                    lifetime,
                    block_key: c.block_key,
                    chunk_key: Some(candidate.key),
                    device_memory: old(self).block_at(c.block_key as int).device_memory,
                    offset: candidate.aligned_offset,
                    size,
                    mapped_ptr: match old(self).block_at(c.block_key as int).mapped_base {
                        Some(base) => Some((base + candidate.aligned_offset) as u64),
                        None => None,
                    },
                })
            }),
    {
        let ghost s0 = *old(self);
        let table_len: usize = self.chunks.len();
        let key = candidate.key;
        proof {
            assert(s0.in_fl(bucket as int, candidate.free_list_index as int));
            assert(s0.chunk_live(key as int));
            assert(s0.wf_chunk(key as int));
        }
        let c = self.chunks[key].unwrap();
        let ghost pre_bucket = s0.free_chunks@[bucket as int]@;
        self.free_chunks[bucket].remove(candidate.free_list_index);
        proof {
            let idx = candidate.free_list_index as int;
            let post = self.free_chunks@[bucket as int]@;
            assert(post =~= pre_bucket.remove(idx));
            // No other position of any list holds this key, so membership
            // of every other key survives the removal.
            assert forall|k: usize| k != key && pre_bucket.contains(k) implies post.contains(
                k,
            ) by {
                let w = choose|w: int| 0 <= w < pre_bucket.len() && pre_bucket[w] == k;
                assert(s0.fl_at(bucket as int, w) == k);
                assert(w != idx);
                if w < idx {
                    assert(post[w] == k);
                } else {
                    assert(post[w - 1] == k);
                }
            }
            assert forall|j1: int, j2: int| 0 <= j1 < j2 < post.len() implies post[j1]
                != post[j2] by {
                let idx2 = candidate.free_list_index as int;
                let w1: int = if j1 < idx2 { j1 } else { j1 + 1 };
                let w2: int = if j2 < idx2 { j2 } else { j2 + 1 };
                assert(pre_bucket[w1] == post[j1]);
                assert(pre_bucket[w2] == post[j2]);
                if post[j1] == post[j2] {
                    assert(s0.fl_at(bucket as int, w1) == s0.fl_at(bucket as int, w2));
                }
            }
            assert(!post.contains(key)) by {
                if post.contains(key) {
                    let w = choose|w: int| 0 <= w < post.len() && post[w] == key;
                    let idx2 = candidate.free_list_index as int;
                    if w < idx2 {
                        assert(s0.fl_at(bucket as int, w) == key);
                        assert(s0.fl_at(bucket as int, idx2) == key);
                    } else {
                        assert(s0.fl_at(bucket as int, w + 1) == key);
                        assert(s0.fl_at(bucket as int, idx2) == key);
                    }
                }
            }
        }
        let ghost sa = *self;
        let free_size = candidate.free_size;
        let aligned = candidate.aligned_offset;
        let new_free_chunk_key: Option<usize> = if free_size > 0 {
            let new_chunk = MemoryChunk {
                block_key: c.block_key,
                size: free_size,
                offset: aligned + size,
                previous: Some(key),
                next: c.next,
                chunk_type: ChunkType::Free,
            };
            let nk = self.add_chunk(new_chunk);
            proof {
                lemma_bucket_monotonic(free_size as int, s0.block_size as int);
            }
            self.add_to_free_list(nk, free_size);
            Some(nk)
        } else {
            None
        };
        let ghost sb = *self;
        let updated = MemoryChunk {
            size: aligned - c.offset + size,
            chunk_type,
            next: match new_free_chunk_key {
                Some(nk) => Some(nk),
                None => c.next,
            },
            ..c
        };
        self.chunks[key] = Some(updated);
        if let Some(nk) = new_free_chunk_key {
            if let Some(old_next) = c.next {
                proof {
                    assert(s0.chunk_live(old_next as int));
                    assert(old_next != key);
                    assert(old_next != nk);
                }
                let mut onc = self.chunks[old_next].unwrap();
                onc.previous = Some(nk);
                self.chunks[old_next] = Some(onc);
            }
        }
        proof {
            let s2 = *self;
            let bf = bucket_of(free_size as int) as int;
            let nkopt = new_free_chunk_key;
            // Membership of every other key survives all the list edits.
            assert forall|i: int|
                s0.free_list_has(i) && i != key implies #[trigger] s2.free_list_has(i) by {
                let (b, j) = choose|b: int, j: int| s0.in_fl(b, j) && s0.fl_at(b, j) == i;
                assert(s0.free_chunks@[b]@.contains(i as usize)) by {
                    assert(s0.free_chunks@[b]@[j] == i as usize);
                }
                assert(i < table_len);
                assert(sa.free_chunks@[b]@.contains(i as usize)) by {
                    if b != bucket as int {
                        assert(sa.free_chunks@[b] == s0.free_chunks@[b]);
                    }
                }
                assert(s2.free_chunks@[b]@.contains(i as usize)) by {
                    if nkopt is Some && b == bf {
                        let w = choose|w: int|
                            0 <= w < sa.free_chunks@[b]@.len() && sa.free_chunks@[b]@[w]
                                == i as usize;
                        assert(s2.free_chunks@[b]@[w] == i as usize);
                    } else {
                        assert(s2.free_chunks@[b] == sa.free_chunks@[b]);
                    }
                }
                let w = choose|w: int|
                    0 <= w < s2.free_chunks@[b]@.len() && s2.free_chunks@[b]@[w] == i as usize;
                assert(s2.in_fl(b, w) && s2.fl_at(b, w) == i);
            }
            if nkopt is Some {
                assert(s2.free_list_has(nkopt->0 as int)) by {
                    let last = s2.free_chunks@[bf]@.len() - 1;
                    assert(s2.in_fl(bf, last) && s2.fl_at(bf, last) == nkopt->0);
                }
            }
            lemma_split_wf_chunks(s0, s2, key, c, nkopt, updated, size, aligned);
            // Every final free-list entry is a live free chunk of its
            // bucket: entries other than the pushed leftover come from the
            // old lists.
            assert forall|b: int, j: int| s2.in_fl(b, j) implies {
                let k = #[trigger] s2.fl_at(b, j);
                &&& s2.chunk_live(k)
                &&& s2.chunk_at(k).chunk_type == ChunkType::Free
                &&& bucket_of(s2.chunk_at(k).size as int) == b
            } by {
                let k = s2.fl_at(b, j);
                if nkopt is Some && b == bf && j == s2.free_chunks@[bf]@.len() - 1 {
                    assert(k == nkopt->0);
                } else {
                    assert(sa.free_chunks@[b]@[j] == s2.free_chunks@[b]@[j]) by {
                        if nkopt is Some && b == bf {
                        } else {
                            assert(s2.free_chunks@[b] == sa.free_chunks@[b]);
                        }
                    }
                    assert(sa.free_chunks@[b]@.contains(k as usize));
                    assert(k != key) by {
                        if b == bucket as int {
                            assert(!sa.free_chunks@[bucket as int]@.contains(key));
                        } else {
                            assert(sa.free_chunks@[b] == s0.free_chunks@[b]);
                            if s0.free_chunks@[b]@.contains(key) {
                                let v = choose|v: int|
                                    0 <= v < s0.free_chunks@[b]@.len() && s0.free_chunks@[b]@[v]
                                        == key;
                                assert(s0.in_fl(b, v) && s0.fl_at(b, v) == key);
                                assert(s0.in_fl(
                                    bucket as int,
                                    candidate.free_list_index as int,
                                ));
                                assert(s0.fl_at(bucket as int, candidate.free_list_index as int)
                                    == key);
                                assert(false);
                            }
                        }
                    }
                    assert(s0.free_chunks@[b]@.contains(k as usize)) by {
                        if b == bucket as int {
                            let w = choose|w: int|
                                0 <= w < sa.free_chunks@[b]@.len() && sa.free_chunks@[b]@[w]
                                    == k as usize;
                            assert(pre_bucket.contains(k as usize)) by {
                                let idx = candidate.free_list_index as int;
                                if w < idx {
                                    assert(pre_bucket[w] == k as usize);
                                } else {
                                    assert(pre_bucket[w + 1] == k as usize);
                                }
                            }
                        } else {
                            assert(sa.free_chunks@[b] == s0.free_chunks@[b]);
                        }
                    }
                    let w = choose|w: int|
                        0 <= w < s0.free_chunks@[b]@.len() && s0.free_chunks@[b]@[w] == k as usize;
                    assert(s0.in_fl(b, w) && s0.fl_at(b, w) == k);
                    assert(s0.chunk_live(k) && s0.chunk_at(k).chunk_type == ChunkType::Free
                        && bucket_of(s0.chunk_at(k).size as int) == b);
                    assert(nkopt is Some ==> k != nkopt->0);
                    if c.next is Some && k == c.next->0 && nkopt is Some {
                        assert(s2.chunk_at(k).size == s0.chunk_at(k).size);
                        assert(s2.chunk_at(k).chunk_type == s0.chunk_at(k).chunk_type);
                    } else {
                        assert(s2.chunks@[k] == s0.chunks@[k]);
                    }
                }
            }
            // No key is filed twice.
            assert forall|c1: int, p1: int, c2: int, p2: int|
                s2.in_fl(c1, p1) && s2.in_fl(c2, p2) && #[trigger] s2.fl_at(c1, p1)
                    == #[trigger] s2.fl_at(c2, p2) implies c1 == c2 && p1 == p2 by {
                let k = s2.fl_at(c1, p1);
                assert(bucket_of(s2.chunk_at(k).size as int) == c1);
                assert(bucket_of(s2.chunk_at(k).size as int) == c2);
                if nkopt is Some && k == nkopt->0 {
                    assert(c1 == bf && c2 == bf);
                    let last = s2.free_chunks@[bf]@.len() - 1;
                    assert forall|p: int| 0 <= p < last implies s2.free_chunks@[bf]@[p]
                        != nkopt->0 by {
                        if s2.free_chunks@[bf]@[p] == nkopt->0 {
                            assert(sa.free_chunks@[bf]@[p] == s2.free_chunks@[bf]@[p]);
                            assert(sa.free_chunks@[bf]@.contains(nkopt->0));
                            if bf == bucket as int {
                                assert(pre_bucket.contains(nkopt->0)) by {
                                    let idx = candidate.free_list_index as int;
                                    let w = choose|w: int|
                                        0 <= w < sa.free_chunks@[bf]@.len() && sa.free_chunks@[
                                            bf
                                        ]@[w] == nkopt->0;
                                    if w < idx {
                                        assert(pre_bucket[w] == nkopt->0);
                                    } else {
                                        assert(pre_bucket[w + 1] == nkopt->0);
                                    }
                                }
                                let v = choose|v: int|
                                    0 <= v < pre_bucket.len() && pre_bucket[v] == nkopt->0;
                                assert(s0.fl_at(bucket as int, v) == nkopt->0);
                                assert(s0.chunk_live(nkopt->0 as int));
                                assert(false);
                            } else {
                                let v = choose|v: int|
                                    0 <= v < s0.free_chunks@[bf]@.len() && s0.free_chunks@[bf]@[v]
                                        == nkopt->0;
                                assert(s0.fl_at(bf, v) == nkopt->0);
                                assert(s0.chunk_live(nkopt->0 as int));
                                assert(false);
                            }
                        }
                    }
                    assert(p1 == last && p2 == last);
                } else {
                    let last = if nkopt is Some {
                        s2.free_chunks@[bf]@.len() - 1
                    } else {
                        -1
                    };
                    assert(p1 != last || c1 != bf || nkopt is None);
                    assert(p2 != last || c2 != bf || nkopt is None);
                    assert(sa.free_chunks@[c1]@[p1] == s2.free_chunks@[c1]@[p1]) by {
                        if nkopt is Some && c1 == bf {
                        } else {
                            assert(s2.free_chunks@[c1] == sa.free_chunks@[c1]);
                        }
                    }
                    assert(sa.free_chunks@[c1]@[p2] == s2.free_chunks@[c1]@[p2]) by {
                        if nkopt is Some && c1 == bf {
                        } else {
                            assert(s2.free_chunks@[c1] == sa.free_chunks@[c1]);
                        }
                    }
                    if c1 == bucket as int {
                        assert(p1 == p2);
                    } else {
                        assert(sa.free_chunks@[c1] == s0.free_chunks@[c1]);
                        assert(s0.in_fl(c1, p1) && s0.in_fl(c1, p2));
                        assert(s0.fl_at(c1, p1) == s0.fl_at(c1, p2));
                        assert(p1 == p2);
                    }
                }
            }
            assert forall|b: int| #[trigger] s2.block_live(b) implies s2.wf_block(b) by {
                assert(s0.block_live(b));
                assert(s0.wf_block(b));
            }
            // Slot stacks: the chunk table only gained entries.
            assert(valid_slots(s2.chunks@, s2.free_chunk_slots@)) by {
                assert(valid_slots(sb.chunks@, sb.free_chunk_slots@));
                assert(s2.free_chunk_slots@ == sb.free_chunk_slots@);
                assert forall|t: int| 0 <= t < s2.free_chunk_slots@.len() implies #[trigger] s2.free_chunk_slots@[t]
                    < s2.chunks@.len() && s2.chunks@[s2.free_chunk_slots@[t] as int] is None by {
                    let sl = sb.free_chunk_slots@[t];
                    assert(sb.chunks@[sl as int] is None);
                    assert(sl != key);
                    if c.next is Some && nkopt is Some {
                        assert(sl != c.next->0) by {
                            if sl == c.next->0 {
                                assert(sb.chunks@[sl as int] == s0.chunks@[sl as int]);
                            }
                        }
                    }
                }
            }
            // Statistics, step by step through the edits.
            lemma_chunk_stats_update(sb.chunks@, key as int, Some(updated));
            assert(sb.chunks@.update(key as int, Some(updated)) =~= if c.next is Some && nkopt
                is Some {
                s2.chunks@.update(c.next->0 as int, sb.chunks@[c.next->0 as int])
            } else {
                s2.chunks@
            });
            if c.next is Some && nkopt is Some {
                let n = c.next->0 as int;
                lemma_chunk_stats_update(
                    sb.chunks@.update(key as int, Some(updated)),
                    n,
                    s2.chunks@[n],
                );
                assert(chunk_used_size(sb.chunks@[n]) == chunk_used_size(s2.chunks@[n]));
                assert(chunk_free_size(sb.chunks@[n]) == chunk_free_size(s2.chunks@[n]));
                assert(chunk_alloc_count(sb.chunks@[n]) == chunk_alloc_count(s2.chunks@[n]));
                assert(chunk_free_count(sb.chunks@[n]) == chunk_free_count(s2.chunks@[n]));
            }
            assert(chunk_used_size(sb.chunks@[key as int]) == 0);
            assert(chunk_free_size(sb.chunks@[key as int]) == c.size);
            if free_size > 0 {
                let f = nkopt->0 as int;
                assert(s2.free_chunks@[bucket_of(free_size as int) as int]@.contains(
                    nkopt->0,
                )) by {
                    let last = s2.free_chunks@[bf]@.len() - 1;
                    assert(s2.free_chunks@[bf]@[last] == nkopt->0);
                }
                assert(s2.chunks@[f] == Some(
                    MemoryChunk {
                        block_key: c.block_key,
                        size: free_size,
                        offset: (aligned + size) as u64,
                        previous: Some(key),
                        next: c.next,
                        chunk_type: ChunkType::Free,
                    },
                ));
            }
        }
        let blk = self.blocks[c.block_key].unwrap();
        proof {
            assert(s0.block_live(c.block_key as int));
            assert(s0.wf_block(c.block_key as int));
        }
        let mapped_ptr = match blk.mapped_base {
            Some(base) => Some(base + aligned),
            None => None,
        };
        Allocation {
            memory_type_index: self.memory_type_index,
            lifetime,
            block_key: c.block_key,
            chunk_key: Some(key),
            device_memory: blk.device_memory,
            offset: aligned,
            size,
            mapped_ptr,
        }
    }

    /// Serves a request from the existing free chunks, best-fit: buckets
    /// are searched from the request's own size class upward, and within
    /// the first bucket that has any fit, the fit leaving the least over
    /// wins (the first filed of equally good ones). Returns `None`,
    /// changing nothing, when no free chunk fits — the pool then needs a
    /// new block (`allocate_new_block`) before the request can succeed.
    pub fn try_allocate(
        &mut self,
        buffer_image_granularity: u64,
        size: u64,
        alignment: u64,
        lifetime: usize,
        is_optimal: bool,
    ) -> (r: Option<Allocation>)
        requires
            old(self).wf(),
            1 <= size <= old(self).block_size,
            is_pow2(alignment),
            is_pow2(buffer_image_granularity),
        ensures
            final(self).wf(),
            final(self).blocks == old(self).blocks,
            final(self).memory_type_index == old(self).memory_type_index,
            final(self).block_size == old(self).block_size,
            final(self).is_mappable == old(self).is_mappable,
            final(self).max_bucket_index == old(self).max_bucket_index,
            r is None ==> *final(self) == *old(self),
            r is None ==> forall|b: int|
                bucket_of(size as int) <= b < old(self).free_chunks@.len() ==> !(
                #[trigger] old(self).bucket_has_fit(
                    b,
                    size as int,
                    alignment as int,
                    buffer_image_granularity as int,
                    request_chunk_type(is_optimal),
                )),
            r is None ==> !old(self).has_whole_free_block(),
            r matches Some(a) ==> a.chunk_key is Some && a.size == size && a.lifetime == lifetime
                && a.memory_type_index == old(self).memory_type_index,
            r matches Some(a) ==> (exists|b: int|
                old(self).chooses_best_fit(
                    a.chunk_key->0 as int,
                    b,
                    size as int,
                    alignment as int,
                    buffer_image_granularity as int,
                    request_chunk_type(is_optimal),
                )),
            r matches Some(a) ==> a.offset == old(self).cand_offset(
                a.chunk_key->0 as int,
                alignment as int,
                buffer_image_granularity as int,
                request_chunk_type(is_optimal),
            ),
            r matches Some(a) ==> ({
                let k = a.chunk_key->0 as int;
                let c = old(self).chunk_at(k);
                &&& a.block_key == c.block_key
                &&& a.device_memory == old(self).block_at(c.block_key as int).device_memory
                &&& a.mapped_ptr == (match old(self).block_at(c.block_key as int).mapped_base {
                    Some(base) => Some((base + a.offset) as u64),
                    None => None,
                })
                &&& c.offset <= a.offset
                &&& a.offset + a.size <= old(self).block_size
            }),
            r matches Some(a) ==> ({
                let k = a.chunk_key->0 as int;
                let c = old(self).chunk_at(k);
                let reserved = a.offset - c.offset + size;
                &&& final(self).chunk_live(k)
                &&& final(self).chunk_at(k).chunk_type == request_chunk_type(is_optimal)
                &&& final(self).chunk_at(k).offset == c.offset
                &&& final(self).chunk_at(k).size == reserved
                &&& final(self).chunk_at(k).block_key == c.block_key
                &&& final(self).spec_used_bytes() == old(self).spec_used_bytes() + reserved
                &&& final(self).spec_unused_bytes() == old(self).spec_unused_bytes() - reserved
                &&& final(self).spec_allocation_count() == old(self).spec_allocation_count() + 1
                &&& old(self).spec_unused_range_count() - 1 <= final(self).spec_unused_range_count()
                &&& final(self).spec_unused_range_count() <= old(self).spec_unused_range_count()
            }),
            r matches Some(a) ==> ({
                let ct = request_chunk_type(is_optimal);
                let k = a.chunk_key->0 as int;
                let c = old(self).chunk_at(k);
                let leftover = old(self).cand_leftover(
                    k,
                    size as int,
                    alignment as int,
                    buffer_image_granularity as int,
                    ct,
                );
                &&& final(self).chunk_at(k).previous == c.previous
                &&& final(self).chunks@.len() >= old(self).chunks@.len()
                &&& final(self).free_chunks@.len() == old(self).free_chunks@.len()
                &&& (forall|i: int|
                    live_at(old(self).chunks@, i) && i != k && (c.next is Some ==> i
                        != c.next->0) ==> final(self).chunks@[i] == old(self).chunks@[i])
                &&& (leftover == 0 ==> final(self).chunks@.len() == old(self).chunks@.len()
                    && final(self).chunk_at(k).next == c.next && (c.next is Some
                    ==> final(self).chunks@[c.next->0 as int] == old(self).chunks@[c.next->0 as int]))
                &&& (leftover > 0 ==> (exists|f: int|
                    {
                        &&& 0 <= f < final(self).chunks@.len()
                        &&& !live_at(old(self).chunks@, f)
                        &&& final(self).chunk_at(k).next == Some(f as usize)
                        &&& #[trigger] final(self).chunks@[f] == Some(
                            MemoryChunk {
                                block_key: c.block_key,
                                size: leftover as u64,
                                offset: (a.offset + a.size) as u64,
                                previous: a.chunk_key,
                                next: c.next,
                                chunk_type: ChunkType::Free,
                            },
                        )
                        &&& final(self).free_chunks@[bucket_of(leftover) as int]@.contains(
                            f as usize,
                        )
                        &&& (c.next is Some ==> final(self).chunks@[c.next->0 as int] == Some(
                            MemoryChunk {
                                previous: Some(f as usize),
                                ..old(self).chunk_at(c.next->0 as int)
                            },
                        ))
                    }))
            }),
    {
        let ghost sz = size as int;
        let ghost al = alignment as int;
        let ghost gr = buffer_image_granularity as int;
        let chunk_type = if is_optimal {
            ChunkType::Optimal
        } else {
            ChunkType::Linear
        };
        proof {
            assert(chunk_type == request_chunk_type(is_optimal));
        }
        let start_bucket = calculate_bucket_index(size);
        proof {
            lemma_bucket_monotonic(size as int, old(self).block_size as int);
        }
        proof {
            crate::bucket::lemma_bucket_u64_max(old(self).block_size as int);
        }
        let mut bucket = start_bucket;
        while bucket <= self.max_bucket_index
            invariant
                *self == *old(self),
                self.wf(),
                self.max_bucket_index <= 56,
                1 <= size <= self.block_size,
                is_pow2(alignment),
                is_pow2(buffer_image_granularity),
                chunk_type == request_chunk_type(is_optimal),
                sz == size as int && al == alignment as int && gr
                    == buffer_image_granularity as int,
                start_bucket == bucket_of(size as int),
                start_bucket <= bucket <= self.max_bucket_index + 1,
                forall|b: int|
                    start_bucket <= b < bucket ==> !self.bucket_has_fit(
                        b,
                        sz,
                        al,
                        gr,
                        chunk_type,
                    ),
            decreases self.max_bucket_index + 1 - bucket,
        {
            match self.find_best_fit_in_bucket(
                bucket as usize,
                size,
                alignment,
                buffer_image_granularity,
                chunk_type,
            ) {
                Some(candidate) => {
                    proof {
                        let b = bucket as int;
                        let k = candidate.key as int;
                        assert(self.in_fl(b, candidate.free_list_index as int));
                        assert(self.chunk_live(k));
                        assert(self.wf_chunk(k));
                        let c = self.chunk_at(k);
                        lemma_pow2_bounds(alignment);
                        lemma_pow2_bounds(buffer_image_granularity);
                        lemma_align_up_props(c.offset as int, al);
                        lemma_align_up_props(spec_align_up(c.offset as int, al), gr);
                        assert(c.offset <= candidate.aligned_offset);
                        assert(self.chooses_best_fit(k, b, sz, al, gr, chunk_type)) by {
                            assert(bucket_of(sz) <= b < self.free_chunks@.len());
                            let jj = candidate.free_list_index as int;
                            assert(0 <= jj < self.free_chunks@[b]@.len() && self.fl_at(b, jj) == k
                                && (forall|j2: int|
                                0 <= j2 < self.free_chunks@[b]@.len() && self.cand_fits(
                                    #[trigger] self.fl_at(b, j2),
                                    sz,
                                    al,
                                    gr,
                                    chunk_type,
                                ) ==> self.cand_leftover(self.fl_at(b, j2), sz, al, gr, chunk_type)
                                    >= self.cand_leftover(k, sz, al, gr, chunk_type)) && (
                            forall|j2: int|
                                0 <= j2 < jj && self.cand_fits(
                                    #[trigger] self.fl_at(b, j2),
                                    sz,
                                    al,
                                    gr,
                                    chunk_type,
                                ) ==> self.cand_leftover(self.fl_at(b, j2), sz, al, gr, chunk_type)
                                    > self.cand_leftover(k, sz, al, gr, chunk_type)));
                        }
                    }
                    let a = self.split_at_candidate(
                        bucket as usize,
                        candidate,
                        size,
                        chunk_type,
                        lifetime,
                    );
                    proof {
                        assert(old(self).chooses_best_fit(
                            a.chunk_key->0 as int,
                            bucket as int,
                            size as int,
                            alignment as int,
                            buffer_image_granularity as int,
                            request_chunk_type(is_optimal),
                        ));
                    }
                    return Some(a);
                },
                None => {
                    bucket = bucket + 1;
                },
            }
        }
        proof {
            assert forall|b: int|
                bucket_of(size as int) <= b < self.free_chunks@.len() implies !self.bucket_has_fit(
                b,
                sz,
                al,
                gr,
                chunk_type,
            ) by {}
            if self.has_whole_free_block() {
                let i = choose|i: int|
                    {
                        &&& #[trigger] self.chunk_live(i)
                        &&& self.chunk_at(i).chunk_type == ChunkType::Free
                        &&& self.chunk_at(i).previous is None
                        &&& self.chunk_at(i).next is None
                        &&& self.chunk_at(i).size == self.block_size
                    };
                assert(self.wf_chunk(i));
                let (b, j) = choose|b: int, j: int| self.in_fl(b, j) && self.fl_at(b, j) == i;
                assert(b == bucket_of(self.block_size as int));
                lemma_pow2_bounds(alignment);
                lemma_align_up_props(0, al);
                assert(self.cand_offset(i, al, gr, chunk_type) == 0);
                assert(self.cand_fits(i, sz, al, gr, chunk_type));
                assert(self.bucket_has_fit(b, sz, al, gr, chunk_type));
                assert(false);
            }
        }
        None
    }

    /// Number of live allocations: allocated chunks plus dedicated blocks,
    /// saturating at `usize::MAX`.
    pub fn allocation_count(&self) -> (r: usize)
        ensures
            r == if self.spec_allocation_count() <= usize::MAX {
                self.spec_allocation_count()
            } else {
                usize::MAX as int
            },
    {
        let ghost cm = self.chunks@.map_values(|c| chunk_alloc_count(c));
        let ghost bm = self.blocks@.map_values(|b| block_dedicated_count(b));
        proof {
            lemma_measure_bounds(cm);
            lemma_measure_bounds(bm);
        }
        let mut total: usize = 0;
        let n = self.chunks.len();
        let mut i: usize = 0;
        while i < n
            invariant
                n == self.chunks@.len(),
                0 <= i <= n,
                cm == self.chunks@.map_values(|c| chunk_alloc_count(c)),
                total == sat_cap(sum_ints(cm.take(i as int)), usize::MAX as int),
                0 <= sum_ints(cm.take(i as int)),
            decreases n - i,
        {
            proof {
                lemma_sum_take_step(cm, i as int);
            }
            let add: usize = match self.chunks[i] {
                Some(c) => {
                    if c.chunk_type != ChunkType::Free {
                        1
                    } else {
                        0
                    }
                },
                None => 0,
            };
            total = total.saturating_add(add);
            i = i + 1;
        }
        proof {
            lemma_sum_take_all(cm);
        }
        let nb = self.blocks.len();
        let mut j: usize = 0;
        while j < nb
            invariant
                nb == self.blocks@.len(),
                0 <= j <= nb,
                cm == self.chunks@.map_values(|c| chunk_alloc_count(c)),
                bm == self.blocks@.map_values(|b| block_dedicated_count(b)),
                total == sat_cap(sum_ints(cm) + sum_ints(bm.take(j as int)), usize::MAX as int),
                0 <= sum_ints(cm),
                0 <= sum_ints(bm.take(j as int)),
            decreases nb - j,
        {
            proof {
                lemma_sum_take_step(bm, j as int);
            }
            let add: usize = match self.blocks[j] {
                Some(b) => {
                    if b.is_dedicated {
                        1
                    } else {
                        0
                    }
                },
                None => 0,
            };
            total = total.saturating_add(add);
            j = j + 1;
        }
        proof {
            lemma_sum_take_all(bm);
        }
        total
    }

    /// Bytes held by live allocations, alignment padding and dedicated
    /// blocks included, saturating at `u64::MAX`.
    pub fn used_bytes(&self) -> (r: u64)
        ensures
            r == if self.spec_used_bytes() <= u64::MAX {
                self.spec_used_bytes()
            } else {
                u64::MAX as int
            },
    {
        let ghost cm = self.chunks@.map_values(|c| chunk_used_size(c));
        let ghost bm = self.blocks@.map_values(|b| block_dedicated_size(b));
        proof {
            lemma_measure_bounds(cm);
            lemma_measure_bounds(bm);
        }
        let mut total: u64 = 0;
        let n = self.chunks.len();
        let mut i: usize = 0;
        while i < n
            invariant
                n == self.chunks@.len(),
                0 <= i <= n,
                cm == self.chunks@.map_values(|c| chunk_used_size(c)),
                total == sat_cap(sum_ints(cm.take(i as int)), u64::MAX as int),
                0 <= sum_ints(cm.take(i as int)),
            decreases n - i,
        {
            proof {
                lemma_sum_take_step(cm, i as int);
            }
            let add: u64 = match self.chunks[i] {
                Some(c) => {
                    if c.chunk_type != ChunkType::Free {
                        c.size
                    } else {
                        0
                    }
                },
                None => 0,
            };
            total = total.saturating_add(add);
            i = i + 1;
        }
        proof {
            lemma_sum_take_all(cm);
        }
        let nb = self.blocks.len();
        let mut j: usize = 0;
        while j < nb
            invariant
                nb == self.blocks@.len(),
                0 <= j <= nb,
                cm == self.chunks@.map_values(|c| chunk_used_size(c)),
                bm == self.blocks@.map_values(|b| block_dedicated_size(b)),
                total == sat_cap(sum_ints(cm) + sum_ints(bm.take(j as int)), u64::MAX as int),
                0 <= sum_ints(cm),
                0 <= sum_ints(bm.take(j as int)),
            decreases nb - j,
        {
            proof {
                lemma_sum_take_step(bm, j as int);
            }
            let add: u64 = match self.blocks[j] {
                Some(b) => {
                    if b.is_dedicated {
                        b.size
                    } else {
                        0
                    }
                },
                None => 0,
            };
            total = total.saturating_add(add);
            j = j + 1;
        }
        proof {
            lemma_sum_take_all(bm);
        }
        total
    }

    /// Bytes covered by free chunks, saturating at `u64::MAX`.
    pub fn unused_bytes(&self) -> (r: u64)
        ensures
            r == if self.spec_unused_bytes() <= u64::MAX {
                self.spec_unused_bytes()
            } else {
                u64::MAX as int
            },
    {
        let ghost cm = self.chunks@.map_values(|c| chunk_free_size(c));
        proof {
            lemma_measure_bounds(cm);
        }
        let mut total: u64 = 0;
        let n = self.chunks.len();
        let mut i: usize = 0;
        while i < n
            invariant
                n == self.chunks@.len(),
                0 <= i <= n,
                cm == self.chunks@.map_values(|c| chunk_free_size(c)),
                total == sat_cap(sum_ints(cm.take(i as int)), u64::MAX as int),
                0 <= sum_ints(cm.take(i as int)),
            decreases n - i,
        {
            proof {
                lemma_sum_take_step(cm, i as int);
            }
            let add: u64 = match self.chunks[i] {
                Some(c) => {
                    if c.chunk_type == ChunkType::Free {
                        c.size
                    } else {
                        0
                    }
                },
                None => 0,
            };
            total = total.saturating_add(add);
            i = i + 1;
        }
        proof {
            lemma_sum_take_all(cm);
        }
        total
    }

    /// Number of free ranges between allocations, saturating at
    /// `usize::MAX`.
    pub fn unused_range_count(&self) -> (r: usize)
        ensures
            r == if self.spec_unused_range_count() <= usize::MAX {
                self.spec_unused_range_count()
            } else {
                usize::MAX as int
            },
    {
        let ghost cm = self.chunks@.map_values(|c| chunk_free_count(c));
        proof {
            lemma_measure_bounds(cm);
        }
        let mut total: usize = 0;
        let n = self.chunks.len();
        let mut i: usize = 0;
        while i < n
            invariant
                n == self.chunks@.len(),
                0 <= i <= n,
                cm == self.chunks@.map_values(|c| chunk_free_count(c)),
                total == sat_cap(sum_ints(cm.take(i as int)), usize::MAX as int),
                0 <= sum_ints(cm.take(i as int)),
            decreases n - i,
        {
            proof {
                lemma_sum_take_step(cm, i as int);
            }
            let add: usize = match self.chunks[i] {
                Some(c) => {
                    if c.chunk_type == ChunkType::Free {
                        1
                    } else {
                        0
                    }
                },
                None => 0,
            };
            total = total.saturating_add(add);
            i = i + 1;
        }
        proof {
            lemma_sum_take_all(cm);
        }
        total
    }

    /// Number of live memory blocks, saturating at `usize::MAX`.
    pub fn block_count(&self) -> (r: usize)
        ensures
            r == if self.spec_block_count() <= usize::MAX {
                self.spec_block_count()
            } else {
                usize::MAX as int
            },
    {
        let ghost bm = self.blocks@.map_values(|b| block_live_count(b));
        proof {
            lemma_measure_bounds(bm);
        }
        let mut total: usize = 0;
        let nb = self.blocks.len();
        let mut j: usize = 0;
        while j < nb
            invariant
                nb == self.blocks@.len(),
                0 <= j <= nb,
                bm == self.blocks@.map_values(|b| block_live_count(b)),
                total == sat_cap(sum_ints(bm.take(j as int)), usize::MAX as int),
                0 <= sum_ints(bm.take(j as int)),
            decreases nb - j,
        {
            proof {
                lemma_sum_take_step(bm, j as int);
            }
            let add: usize = match self.blocks[j] {
                Some(_) => 1,
                None => 0,
            };
            total = total.saturating_add(add);
            j = j + 1;
        }
        proof {
            lemma_sum_take_all(bm);
        }
        total
    }

    /// Files a free chunk's key into the free list of its size bucket.
    fn add_to_free_list(&mut self, chunk_key: usize, size: u64)
        requires
            1 <= size,
            bucket_of(size as int) < old(self).free_chunks@.len(),
        ensures
            final(self).blocks == old(self).blocks,
            final(self).chunks == old(self).chunks,
            final(self).free_block_slots == old(self).free_block_slots,
            final(self).free_chunk_slots == old(self).free_chunk_slots,
            final(self).memory_type_index == old(self).memory_type_index,
            final(self).block_size == old(self).block_size,
            final(self).is_mappable == old(self).is_mappable,
            final(self).max_bucket_index == old(self).max_bucket_index,
            final(self).free_chunks@.len() == old(self).free_chunks@.len(),
            final(self).free_chunks@[bucket_of(size as int) as int]@ == old(self).free_chunks@[
                bucket_of(size as int) as int
            ]@.push(chunk_key),
            forall|b: int|
                0 <= b < old(self).free_chunks@.len() && b != bucket_of(size as int)
                    ==> final(self).free_chunks@[b] == old(self).free_chunks@[b],
    {
        let bucket = calculate_bucket_index(size);
        self.free_chunks[bucket as usize].push(chunk_key);
    }

    /// Takes a free chunk's key out of the free list of its size bucket.
    ///
    /// The key must stand in that list, exactly once.
    fn remove_from_free_list(&mut self, chunk_key: usize, size: u64)
        requires
            1 <= size,
            bucket_of(size as int) < old(self).free_chunks@.len(),
            old(self).free_chunks@[bucket_of(size as int) as int]@.contains(chunk_key),
            forall|j1: int, j2: int|
                0 <= j1 < j2 < old(self).free_chunks@[bucket_of(size as int) as int]@.len()
                    ==> #[trigger] old(self).free_chunks@[bucket_of(size as int) as int]@[j1]
                    != #[trigger] old(self).free_chunks@[bucket_of(size as int) as int]@[j2],
        ensures
            final(self).blocks == old(self).blocks,
            final(self).chunks == old(self).chunks,
            final(self).free_block_slots == old(self).free_block_slots,
            final(self).free_chunk_slots == old(self).free_chunk_slots,
            final(self).memory_type_index == old(self).memory_type_index,
            final(self).block_size == old(self).block_size,
            final(self).is_mappable == old(self).is_mappable,
            final(self).max_bucket_index == old(self).max_bucket_index,
            final(self).free_chunks@.len() == old(self).free_chunks@.len(),
            forall|b: int|
                0 <= b < old(self).free_chunks@.len() && b != bucket_of(size as int)
                    ==> final(self).free_chunks@[b] == old(self).free_chunks@[b],
            ({
                let b = bucket_of(size as int) as int;
                let pre = old(self).free_chunks@[b]@;
                let post = final(self).free_chunks@[b]@;
                &&& post.len() == pre.len() - 1
                &&& !post.contains(chunk_key)
                &&& forall|k: usize| k != chunk_key ==> (#[trigger] post.contains(k)
                    <==> pre.contains(k))
                &&& forall|j1: int, j2: int| 0 <= j1 < j2 < post.len() ==> post[j1] != post[j2]
                &&& forall|j: int| 0 <= j < post.len() ==> pre.contains(#[trigger] post[j])
            }),
    {
        let bucket = calculate_bucket_index(size) as usize;
        let ghost pre = self.free_chunks@[bucket as int]@;
        let mut j: usize = 0;
        let fl_len = self.free_chunks[bucket].len();
        while self.free_chunks[bucket][j] != chunk_key
            invariant
                0 <= bucket < self.free_chunks@.len(),
                bucket == bucket_of(size as int),
                pre == self.free_chunks@[bucket as int]@,
                fl_len == pre.len(),
                0 <= j < pre.len(),
                forall|jj: int| 0 <= jj < j ==> pre[jj] != chunk_key,
                pre.contains(chunk_key),
            decreases fl_len - j,
        {
            j = j + 1;
            proof {
                if j == pre.len() {
                    let w = choose|w: int| 0 <= w < pre.len() && pre[w] == chunk_key;
                    assert(pre[w] == chunk_key);
                    assert(false);
                }
            }
        }
        self.free_chunks[bucket].remove(j);
        proof {
            let post = final(self).free_chunks@[bucket as int]@;
            assert(post =~= pre.remove(j as int));
            assert forall|k: usize| k != chunk_key implies (#[trigger] post.contains(k)
                <==> pre.contains(k)) by {
                if post.contains(k) {
                    let w = choose|w: int| 0 <= w < post.len() && post[w] == k;
                    if w < j {
                        assert(pre[w] == k);
                    } else {
                        assert(pre[w + 1] == k);
                    }
                }
                if pre.contains(k) {
                    let w = choose|w: int| 0 <= w < pre.len() && pre[w] == k;
                    if w < j {
                        assert(post[w] == k);
                    } else {
                        assert(w != j);
                        assert(post[w - 1] == k);
                    }
                }
            }
            assert(!post.contains(chunk_key)) by {
                if post.contains(chunk_key) {
                    let w = choose|w: int| 0 <= w < post.len() && post[w] == chunk_key;
                    if w < j {
                        assert(pre[w] == chunk_key);
                    } else {
                        assert(pre[w + 1] == chunk_key);
                    }
                }
            }
            assert forall|j1: int, j2: int| 0 <= j1 < j2 < post.len() implies post[j1]
                != post[j2] by {
                let w1: int = if j1 < j { j1 } else { j1 + 1 };
                let w2: int = if j2 < j { j2 } else { j2 + 1 };
                assert(pre[w1] == post[j1]);
                assert(pre[w2] == post[j2]);
            }
            assert forall|jj: int| 0 <= jj < post.len() implies pre.contains(
                #[trigger] post[jj],
            ) by {
                if jj < j {
                    assert(pre[jj] == post[jj]);
                } else {
                    assert(pre[jj + 1] == post[jj]);
                }
            }
        }
    }
}

/// After a best-fit split, every live chunk is still locally well formed.
/// `s0` is the pool before, `s2` after; the chosen free chunk at `key` has
/// become the allocated chunk `updated`, the leftover (if any) is the new
/// free chunk at `nk`, and the old upper neighbour is relinked onto the
/// leftover.
proof fn lemma_split_wf_chunks(
    s0: MemoryPool,
    s2: MemoryPool,
    key: usize,
    c: MemoryChunk,
    nkopt: Option<usize>,
    updated: MemoryChunk,
    size: u64,
    aligned: u64,
)
    requires
        s0.wf(),
        s0.chunk_live(key as int),
        c == s0.chunk_at(key as int),
        c.chunk_type == ChunkType::Free,
        c.offset <= aligned,
        1 <= size,
        aligned + size <= c.offset + c.size,
        updated == (MemoryChunk {
            size: (aligned - c.offset + size) as u64,
            chunk_type: updated.chunk_type,
            next: if nkopt is Some {
                nkopt
            } else {
                c.next
            },
            ..c
        }),
        updated.chunk_type != ChunkType::Free,
        s2.blocks == s0.blocks,
        s2.block_size == s0.block_size,
        s0.chunks@.len() <= usize::MAX,
        s2.chunks@[key as int] == Some(updated),
        nkopt is None ==> {
            &&& s2.chunks@.len() == s0.chunks@.len()
            &&& aligned + size == c.offset + c.size
            &&& forall|i: int|
                0 <= i < s0.chunks@.len() && i != key ==> s2.chunks@[i] == s0.chunks@[i]
        },
        nkopt matches Some(nk) ==> {
            &&& !live_at(s0.chunks@, nk as int)
            &&& (nk as int) < s2.chunks@.len()
            &&& aligned + size < c.offset + c.size
            &&& (s2.chunks@.len() == s0.chunks@.len() || (s2.chunks@.len() == s0.chunks@.len() + 1
                && nk == s0.chunks@.len()))
            &&& s2.chunks@[nk as int] == Some(
                MemoryChunk {
                    block_key: c.block_key,
                    size: (c.offset + c.size - aligned - size) as u64,
                    offset: (aligned + size) as u64,
                    previous: Some(key),
                    next: c.next,
                    chunk_type: ChunkType::Free,
                },
            )
            &&& match c.next {
                Some(n) => s2.chunks@[n as int] == Some(
                    MemoryChunk { previous: nkopt, ..s0.chunk_at(n as int) },
                ),
                None => true,
            }
            &&& forall|i: int|
                0 <= i < s0.chunks@.len() && i != key && i != nk && (c.next is Some ==> i
                    != c.next->0) ==> s2.chunks@[i] == s0.chunks@[i]
            &&& s2.free_list_has(nk as int)
        },
        forall|i: int|
            s0.free_list_has(i) && i != key ==> #[trigger] s2.free_list_has(i),
    ensures
        forall|i: int| #[trigger] s2.chunk_live(i) ==> s2.wf_chunk(i),
{
    assert(s0.wf_chunk(key as int));
    assert forall|i: int| #[trigger] s2.chunk_live(i) implies s2.wf_chunk(i) by {
        if i == key {
            assert(s2.chunk_at(i) == updated);
            assert(s0.block_live(updated.block_key as int));
            match updated.previous {
                Some(p) => {
                    assert(s0.chunk_live(p as int));
                    assert(p != key);
                    assert(nkopt is Some ==> p != nkopt->0);
                    if c.next is Some && p == c.next->0 {
                        assert(s0.chunk_at(p as int).offset == c.offset + c.size);
                        assert(s0.chunk_at(p as int).offset + s0.chunk_at(p as int).size
                            == c.offset);
                        assert(false);
                    }
                    assert(s2.chunks@[p as int] == s0.chunks@[p as int]);
                },
                None => {},
            }
            match updated.next {
                Some(n) => {
                    if nkopt is Some {
                        assert(n == nkopt->0);
                        assert(s2.chunk_at(n as int).previous == Some(key));
                        assert(s2.chunk_at(n as int).offset == aligned + size);
                        assert(updated.offset + updated.size == aligned + size);
                    } else {
                        assert(n == c.next->0);
                        assert(s0.chunk_live(n as int));
                        assert(s2.chunks@[n as int] == s0.chunks@[n as int]);
                        assert(s0.chunk_at(n as int).previous == Some(key));
                        assert(updated.offset + updated.size == c.offset + c.size);
                    }
                },
                None => {
                    assert(nkopt is None && c.next is None);
                    assert(c.offset + c.size == s0.block_size);
                },
            }
        } else if nkopt is Some && i == nkopt->0 {
            let nk = nkopt->0;
            let fresh = s2.chunk_at(i);
            assert(fresh.block_key == c.block_key);
            assert(s0.block_live(c.block_key as int));
            assert(fresh.previous == Some(key));
            assert(s2.chunk_at(key as int).next == Some(nk));
            assert(s2.chunk_at(key as int).offset + s2.chunk_at(key as int).size == fresh.offset);
            match fresh.next {
                Some(n) => {
                    assert(s0.chunk_live(n as int));
                    assert(n != key);
                    assert(i != n);
                    assert(s2.chunk_at(n as int).previous == Some(nk));
                    assert(s2.chunk_at(n as int).offset == s0.chunk_at(n as int).offset);
                    assert(s0.chunk_at(n as int).offset == c.offset + c.size);
                    assert(s2.chunk_at(n as int).block_key == c.block_key);
                },
                None => {
                    assert(c.offset + c.size == s0.block_size);
                },
            }
            assert(s2.free_list_has(i));
        } else {
            assert(i != key);
            assert(nkopt is Some ==> i != nkopt->0);
            if c.next is Some && i == c.next->0 && nkopt is Some {
                let n0 = s0.chunk_at(i);
                let n2 = s2.chunk_at(i);
                assert(s0.chunk_live(i));
                assert(s0.wf_chunk(i));
                assert(n2 == (MemoryChunk { previous: nkopt, ..n0 }));
                assert(n0.previous == Some(key));
                let nk = nkopt->0;
                assert(s2.chunk_live(nk as int));
                assert(s2.chunk_at(nk as int).next == Some(i as usize));
                assert(s2.chunk_at(nk as int).offset + s2.chunk_at(nk as int).size == n2.offset);
                assert(s2.chunk_at(nk as int).block_key == n2.block_key);
                assert(nk != i);
                match n0.next {
                    Some(m) => {
                        assert(s0.chunk_live(m as int));
                        assert(s0.chunk_at(m as int).previous == Some(i as usize));
                        assert(m != key) by {
                            if m == key {
                                assert(c.previous == Some(i as usize));
                                assert(s0.chunk_at(m as int).offset == n0.offset + n0.size);
                                assert(c.offset == n0.offset + n0.size);
                                assert(n0.offset == c.offset + c.size);
                            }
                        }
                        assert(m != nk);
                        assert(i != m);
                        assert(s2.chunks@[m as int] == s0.chunks@[m as int]);
                    },
                    None => {},
                }
                if n2.chunk_type == ChunkType::Free {
                    assert(s0.free_list_has(i));
                    assert(s2.free_list_has(i));
                }
            } else {
                assert(s2.chunks@[i] == s0.chunks@[i]);
                let c0 = s0.chunk_at(i);
                assert(s0.chunk_live(i));
                assert(s0.wf_chunk(i));
                match c0.previous {
                    Some(p) => {
                        assert(s0.chunk_live(p as int));
                        assert(s0.chunk_at(p as int).next == Some(i as usize));
                        assert(nkopt is Some ==> p != nkopt->0);
                        if p == key {
                            assert(c.next == Some(i as usize));
                            assert(nkopt is None) by {
                                if nkopt is Some {
                                    assert(i == c.next->0);
                                }
                            }
                            assert(s2.chunk_at(p as int) == updated);
                            assert(updated.next == Some(i as usize));
                            assert(updated.offset + updated.size == c.offset + c.size);
                            assert(c.offset + c.size == c0.offset);
                        } else if c.next is Some && p == c.next->0 && nkopt is Some {
                            assert(s2.chunk_at(p as int).next == s0.chunk_at(p as int).next);
                            assert(s2.chunk_at(p as int).offset == s0.chunk_at(p as int).offset);
                            assert(s2.chunk_at(p as int).size == s0.chunk_at(p as int).size);
                            assert(s2.chunk_at(p as int).block_key == s0.chunk_at(
                                p as int,
                            ).block_key);
                            assert(s2.chunk_live(p as int));
                        } else {
                            assert(s2.chunks@[p as int] == s0.chunks@[p as int]);
                        }
                    },
                    None => {},
                }
                match c0.next {
                    Some(m) => {
                        assert(s0.chunk_live(m as int));
                        assert(s0.chunk_at(m as int).previous == Some(i as usize));
                        assert(nkopt is Some ==> m != nkopt->0);
                        if m == key {
                            assert(c.previous == Some(i as usize));
                            assert(s2.chunk_at(m as int) == updated);
                            assert(updated.previous == Some(i as usize));
                            assert(updated.offset == c.offset);
                            assert(c0.offset + c0.size == c.offset);
                        } else if c.next is Some && m == c.next->0 && nkopt is Some {
                            assert(s0.chunk_at(m as int).previous == Some(key));
                            assert(i == key as int);
                            assert(false);
                        } else {
                            assert(s2.chunks@[m as int] == s0.chunks@[m as int]);
                        }
                    },
                    None => {},
                }
                if c0.chunk_type == ChunkType::Free {
                    assert(s0.free_list_has(i));
                    assert(s2.free_list_has(i));
                }
            }
        }
    }
}

/// An integer capped from above.
pub open spec fn sat_cap(x: int, cap: int) -> int {
    if x <= cap {
        x
    } else {
        cap
    }
}

/// Every prefix sum of a non-negative measure is non-negative.
proof fn lemma_measure_bounds(s: Seq<int>)
    requires
        forall|i: int| 0 <= i < s.len() ==> 0 <= #[trigger] s[i],
    ensures
        forall|i: int| 0 <= i <= s.len() ==> 0 <= #[trigger] sum_ints(s.take(i)),
{
    assert forall|i: int| 0 <= i <= s.len() implies 0 <= #[trigger] sum_ints(s.take(i)) by {
        lemma_sum_bounds(s.take(i));
    }
}

/// The records of the live blocks of a block table, in key order.
pub open spec fn live_blocks_of(t: Seq<Option<MemoryBlock>>) -> Seq<MemoryBlock>
    decreases t.len(),
{
    if t.len() == 0 {
        Seq::empty()
    } else {
        match t.last() {
            Some(b) => live_blocks_of(t.drop_last()).push(b),
            None => live_blocks_of(t.drop_last()),
        }
    }
}

/// There are as many live block records as the block count says.
pub proof fn lemma_live_blocks_count(t: Seq<Option<MemoryBlock>>)
    ensures
        live_blocks_of(t).len() == sum_ints(t.map_values(|b| block_live_count(b))),
    decreases t.len(),
{
    if t.len() > 0 {
        lemma_live_blocks_count(t.drop_last());
        assert(t.map_values(|b| block_live_count(b)).drop_last() =~= t.drop_last().map_values(
            |b| block_live_count(b),
        ));
        assert(t.map_values(|b| block_live_count(b)).last() == block_live_count(t.last()));
    }
}

/// After a merge of two adjacent free chunks, every live chunk is still
/// locally well formed. `s0` is the pool before, `s2` the pool after; the
/// chunk table of `s2` differs from `s0` exactly at the surviving key
/// (grown to `merged`), the absorbed key (dead), and the absorbed chunk's
/// upper neighbour (relinked downward).
proof fn lemma_merge_wf_chunks(
    s0: MemoryPool,
    s2: MemoryPool,
    lhs_chunk_key: usize,
    rhs_chunk_key: usize,
    lhs: MemoryChunk,
    rhs: MemoryChunk,
    merged: MemoryChunk,
)
    requires
        s0.wf(),
        s0.chunk_live(lhs_chunk_key as int),
        s0.chunk_live(rhs_chunk_key as int),
        lhs == s0.chunk_at(lhs_chunk_key as int),
        rhs == s0.chunk_at(rhs_chunk_key as int),
        lhs.chunk_type == ChunkType::Free,
        rhs.chunk_type == ChunkType::Free,
        lhs.next == Some(rhs_chunk_key),
        merged == (MemoryChunk { size: (lhs.size + rhs.size) as u64, next: rhs.next, ..lhs }),
        lhs.size + rhs.size <= u64::MAX,
        s2.blocks == s0.blocks,
        s2.block_size == s0.block_size,
        s0.chunks@.len() <= usize::MAX,
        s2.chunks@.len() == s0.chunks@.len(),
        s2.chunks@[lhs_chunk_key as int] == Some(merged),
        s2.chunks@[rhs_chunk_key as int] is None,
        match rhs.next {
            Some(n) => s2.chunks@[n as int] == Some(
                MemoryChunk { previous: Some(lhs_chunk_key), ..s0.chunk_at(n as int) },
            ),
            None => true,
        },
        forall|i: int|
            0 <= i < s0.chunks@.len() && i != lhs_chunk_key && i != rhs_chunk_key && (rhs.next
                is Some ==> i != rhs.next->0) ==> s2.chunks@[i] == s0.chunks@[i],
        forall|i: int|
            s0.free_list_has(i) && i != lhs_chunk_key && i != rhs_chunk_key
                ==> #[trigger] s2.free_list_has(i),
        s2.free_list_has(lhs_chunk_key as int),
    ensures
        forall|i: int| #[trigger] s2.chunk_live(i) ==> s2.wf_chunk(i),
{
    let nopt = rhs.next;
    assert(s0.wf_chunk(lhs_chunk_key as int));
    assert(s0.wf_chunk(rhs_chunk_key as int));
    assert(rhs.previous == Some(lhs_chunk_key));
    assert(lhs.offset + lhs.size == rhs.offset);
    assert(rhs.offset + rhs.size <= s0.block_size);
    assert forall|i: int| #[trigger] s2.chunk_live(i) implies s2.wf_chunk(i) by {
        if i == lhs_chunk_key {
            assert(s2.chunk_at(i) == merged);
            assert(s0.block_live(merged.block_key as int));
            assert(s2.blocks@ == s0.blocks@);
            match merged.previous {
                Some(p) => {
                    assert(s0.chunk_live(p as int));
                    assert(p != rhs_chunk_key) by {
                        if p == rhs_chunk_key {
                            assert(s0.chunk_at(p as int).offset + s0.chunk_at(p as int).size
                                == lhs.offset);
                        }
                    }
                    assert(Some(p) != nopt) by {
                        if Some(p) == nopt {
                            assert(s0.chunk_at(p as int).offset == rhs.offset + rhs.size);
                            assert(s0.chunk_at(p as int).offset + s0.chunk_at(p as int).size
                                == lhs.offset);
                        }
                    }
                    assert(s2.chunks@[p as int] == s0.chunks@[p as int]);
                },
                None => {},
            }
            match merged.next {
                Some(n) => {
                    assert(s0.chunk_live(n as int));
                    assert(s0.chunk_at(n as int).offset == rhs.offset + rhs.size);
                    assert(n != lhs_chunk_key) by {
                        if n == lhs_chunk_key {
                            assert(s0.chunk_at(n as int).offset == lhs.offset);
                        }
                    }
                    assert(s2.chunk_at(n as int).previous == Some(lhs_chunk_key));
                    assert(s2.chunk_at(n as int).offset == s0.chunk_at(n as int).offset);
                    assert(s2.chunk_at(n as int).block_key == s0.chunk_at(n as int).block_key);
                },
                None => {
                    assert(rhs.offset + rhs.size == s0.block_size);
                },
            }
            assert(s2.free_list_has(i));
        } else if nopt is Some && i == nopt->0 {
            assert(s0.chunk_live(nopt->0 as int));
            assert(i == nopt->0 as int);
            let n0 = s0.chunk_at(i);
            let n2 = s2.chunk_at(i);
            assert(s0.chunk_live(i));
            assert(s0.wf_chunk(i));
            assert(n2 == (MemoryChunk { previous: Some(lhs_chunk_key), ..n0 }));
            assert(n0.previous == Some(rhs_chunk_key));
            assert(s2.chunk_at(lhs_chunk_key as int).next == Some(i as usize));
            assert(s2.chunk_at(lhs_chunk_key as int).offset + s2.chunk_at(
                lhs_chunk_key as int,
            ).size == n2.offset);
            match n0.next {
                Some(m) => {
                    assert(s0.chunk_live(m as int));
                    assert(s0.chunk_at(m as int).offset == n0.offset + n0.size);
                    assert(m != rhs_chunk_key) by {
                        if m == rhs_chunk_key {
                            assert(s0.chunk_at(m as int).offset == rhs.offset);
                        }
                    }
                    assert(m != lhs_chunk_key) by {
                        if m == lhs_chunk_key {
                            assert(s0.chunk_at(m as int).offset == lhs.offset);
                        }
                    }
                    assert(Some(m) != nopt) by {
                        if Some(m) == nopt {
                            assert(s0.chunk_at(m as int).offset == n0.offset);
                        }
                    }
                    assert(s2.chunks@[m as int] == s0.chunks@[m as int]);
                },
                None => {},
            }
            if n2.chunk_type == ChunkType::Free {
                assert(s0.free_list_has(i));
                assert(s2.free_list_has(i));
            }
        } else {
            assert(i != rhs_chunk_key as int);
            assert(rhs.next is Some ==> i != rhs.next->0);
            assert(s2.chunks@[i] == s0.chunks@[i]);
            let c0 = s0.chunk_at(i);
            assert(s0.chunk_live(i));
            assert(s0.wf_chunk(i));
            match c0.previous {
                Some(p) => {
                    assert(s0.chunk_live(p as int));
                    assert(s0.chunk_at(p as int).next == Some(i as usize));
                    assert(p != rhs_chunk_key) by {
                        if p == rhs_chunk_key {
                            assert(nopt == Some(i as usize));
                        }
                    }
                    assert(p != lhs_chunk_key) by {
                        if p == lhs_chunk_key {
                            assert(lhs.next == Some(i as usize));
                            assert(i as usize == rhs_chunk_key);
                            assert(i == rhs_chunk_key as int);
                        }
                    }
                    if Some(p) == nopt {
                        assert(s2.chunk_live(p as int));
                        assert(s2.chunk_at(p as int).next == s0.chunk_at(p as int).next);
                        assert(s2.chunk_at(p as int).offset == s0.chunk_at(p as int).offset);
                        assert(s2.chunk_at(p as int).size == s0.chunk_at(p as int).size);
                        assert(s2.chunk_at(p as int).block_key == s0.chunk_at(p as int).block_key);
                    } else {
                        assert(s2.chunks@[p as int] == s0.chunks@[p as int]);
                    }
                },
                None => {},
            }
            match c0.next {
                Some(m) => {
                    assert(s0.chunk_live(m as int));
                    assert(s0.chunk_at(m as int).previous == Some(i as usize));
                    assert(m != rhs_chunk_key) by {
                        if m == rhs_chunk_key {
                            assert(s0.chunk_at(m as int).previous == Some(lhs_chunk_key));
                            assert(i as usize == lhs_chunk_key);
                            assert(i == lhs_chunk_key as int);
                        }
                    }
                    if m == lhs_chunk_key {
                        assert(lhs.previous == Some(i as usize));
                        assert(s2.chunk_at(m as int) == merged);
                        assert(merged.previous == Some(i as usize));
                        assert(merged.offset == lhs.offset);
                        assert(c0.offset + c0.size == merged.offset);
                        assert(s2.chunk_live(m as int));
                    } else if Some(m) == nopt {
                        assert(s2.chunk_at(m as int).previous == Some(lhs_chunk_key));
                        assert(s0.chunk_at(m as int).previous == Some(rhs_chunk_key));
                        assert(false);
                    } else {
                        assert(s2.chunks@[m as int] == s0.chunks@[m as int]);
                    }
                },
                None => {},
            }
            if c0.chunk_type == ChunkType::Free {
                assert(s0.free_list_has(i));
                assert(s2.free_list_has(i));
            }
        }
    }
}

/// How replacing one chunk-table entry moves each pool statistic.
proof fn lemma_chunk_stats_update(pre: Seq<Option<MemoryChunk>>, i: int, v: Option<MemoryChunk>)
    requires
        0 <= i < pre.len(),
    ensures
        sum_ints(pre.update(i, v).map_values(|c| chunk_used_size(c))) == sum_ints(
            pre.map_values(|c| chunk_used_size(c)),
        ) - chunk_used_size(pre[i]) + chunk_used_size(v),
        sum_ints(pre.update(i, v).map_values(|c| chunk_free_size(c))) == sum_ints(
            pre.map_values(|c| chunk_free_size(c)),
        ) - chunk_free_size(pre[i]) + chunk_free_size(v),
        sum_ints(pre.update(i, v).map_values(|c| chunk_alloc_count(c))) == sum_ints(
            pre.map_values(|c| chunk_alloc_count(c)),
        ) - chunk_alloc_count(pre[i]) + chunk_alloc_count(v),
        sum_ints(pre.update(i, v).map_values(|c| chunk_free_count(c))) == sum_ints(
            pre.map_values(|c| chunk_free_count(c)),
        ) - chunk_free_count(pre[i]) + chunk_free_count(v),
{
    assert(pre.update(i, v).map_values(|c| chunk_used_size(c)) =~= pre.map_values(
        |c| chunk_used_size(c),
    ).update(i, chunk_used_size(v)));
    lemma_sum_update(pre.map_values(|c| chunk_used_size(c)), i, chunk_used_size(v));
    assert(pre.update(i, v).map_values(|c| chunk_free_size(c)) =~= pre.map_values(
        |c| chunk_free_size(c),
    ).update(i, chunk_free_size(v)));
    lemma_sum_update(pre.map_values(|c| chunk_free_size(c)), i, chunk_free_size(v));
    assert(pre.update(i, v).map_values(|c| chunk_alloc_count(c)) =~= pre.map_values(
        |c| chunk_alloc_count(c),
    ).update(i, chunk_alloc_count(v)));
    lemma_sum_update(pre.map_values(|c| chunk_alloc_count(c)), i, chunk_alloc_count(v));
    assert(pre.update(i, v).map_values(|c| chunk_free_count(c)) =~= pre.map_values(
        |c| chunk_free_count(c),
    ).update(i, chunk_free_count(v)));
    lemma_sum_update(pre.map_values(|c| chunk_free_count(c)), i, chunk_free_count(v));
}

/// How appending one chunk-table entry moves each pool statistic.
proof fn lemma_chunk_stats_push(pre: Seq<Option<MemoryChunk>>, v: Option<MemoryChunk>)
    ensures
        sum_ints(pre.push(v).map_values(|c| chunk_used_size(c))) == sum_ints(
            pre.map_values(|c| chunk_used_size(c)),
        ) + chunk_used_size(v),
        sum_ints(pre.push(v).map_values(|c| chunk_free_size(c))) == sum_ints(
            pre.map_values(|c| chunk_free_size(c)),
        ) + chunk_free_size(v),
        sum_ints(pre.push(v).map_values(|c| chunk_alloc_count(c))) == sum_ints(
            pre.map_values(|c| chunk_alloc_count(c)),
        ) + chunk_alloc_count(v),
        sum_ints(pre.push(v).map_values(|c| chunk_free_count(c))) == sum_ints(
            pre.map_values(|c| chunk_free_count(c)),
        ) + chunk_free_count(v),
{
    assert(pre.push(v).map_values(|c| chunk_used_size(c)) =~= pre.map_values(
        |c| chunk_used_size(c),
    ).push(chunk_used_size(v)));
    lemma_sum_push(pre.map_values(|c| chunk_used_size(c)), chunk_used_size(v));
    assert(pre.push(v).map_values(|c| chunk_free_size(c)) =~= pre.map_values(
        |c| chunk_free_size(c),
    ).push(chunk_free_size(v)));
    lemma_sum_push(pre.map_values(|c| chunk_free_size(c)), chunk_free_size(v));
    assert(pre.push(v).map_values(|c| chunk_alloc_count(c)) =~= pre.map_values(
        |c| chunk_alloc_count(c),
    ).push(chunk_alloc_count(v)));
    lemma_sum_push(pre.map_values(|c| chunk_alloc_count(c)), chunk_alloc_count(v));
    assert(pre.push(v).map_values(|c| chunk_free_count(c)) =~= pre.map_values(
        |c| chunk_free_count(c),
    ).push(chunk_free_count(v)));
    lemma_sum_push(pre.map_values(|c| chunk_free_count(c)), chunk_free_count(v));
}

/// How replacing one block-table entry moves each pool statistic.
proof fn lemma_block_stats_update(pre: Seq<Option<MemoryBlock>>, i: int, v: Option<MemoryBlock>)
    requires
        0 <= i < pre.len(),
    ensures
        sum_ints(pre.update(i, v).map_values(|b| block_dedicated_size(b))) == sum_ints(
            pre.map_values(|b| block_dedicated_size(b)),
        ) - block_dedicated_size(pre[i]) + block_dedicated_size(v),
        sum_ints(pre.update(i, v).map_values(|b| block_dedicated_count(b))) == sum_ints(
            pre.map_values(|b| block_dedicated_count(b)),
        ) - block_dedicated_count(pre[i]) + block_dedicated_count(v),
        sum_ints(pre.update(i, v).map_values(|b| block_live_count(b))) == sum_ints(
            pre.map_values(|b| block_live_count(b)),
        ) - block_live_count(pre[i]) + block_live_count(v),
{
    assert(pre.update(i, v).map_values(|b| block_dedicated_size(b)) =~= pre.map_values(
        |b| block_dedicated_size(b),
    ).update(i, block_dedicated_size(v)));
    lemma_sum_update(pre.map_values(|b| block_dedicated_size(b)), i, block_dedicated_size(v));
    assert(pre.update(i, v).map_values(|b| block_dedicated_count(b)) =~= pre.map_values(
        |b| block_dedicated_count(b),
    ).update(i, block_dedicated_count(v)));
    lemma_sum_update(pre.map_values(|b| block_dedicated_count(b)), i, block_dedicated_count(v));
    assert(pre.update(i, v).map_values(|b| block_live_count(b)) =~= pre.map_values(
        |b| block_live_count(b),
    ).update(i, block_live_count(v)));
    lemma_sum_update(pre.map_values(|b| block_live_count(b)), i, block_live_count(v));
}

/// How appending one block-table entry moves each pool statistic.
proof fn lemma_block_stats_push(pre: Seq<Option<MemoryBlock>>, v: Option<MemoryBlock>)
    ensures
        sum_ints(pre.push(v).map_values(|b| block_dedicated_size(b))) == sum_ints(
            pre.map_values(|b| block_dedicated_size(b)),
        ) + block_dedicated_size(v),
        sum_ints(pre.push(v).map_values(|b| block_dedicated_count(b))) == sum_ints(
            pre.map_values(|b| block_dedicated_count(b)),
        ) + block_dedicated_count(v),
        sum_ints(pre.push(v).map_values(|b| block_live_count(b))) == sum_ints(
            pre.map_values(|b| block_live_count(b)),
        ) + block_live_count(v),
{
    assert(pre.push(v).map_values(|b| block_dedicated_size(b)) =~= pre.map_values(
        |b| block_dedicated_size(b),
    ).push(block_dedicated_size(v)));
    lemma_sum_push(pre.map_values(|b| block_dedicated_size(b)), block_dedicated_size(v));
    assert(pre.push(v).map_values(|b| block_dedicated_count(b)) =~= pre.map_values(
        |b| block_dedicated_count(b),
    ).push(block_dedicated_count(v)));
    lemma_sum_push(pre.map_values(|b| block_dedicated_count(b)), block_dedicated_count(v));
    assert(pre.push(v).map_values(|b| block_live_count(b)) =~= pre.map_values(
        |b| block_live_count(b),
    ).push(block_live_count(v)));
    lemma_sum_push(pre.map_values(|b| block_live_count(b)), block_live_count(v));
}

} // verus!

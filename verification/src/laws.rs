//! The allocator's global guarantees, stated and proved once over the pool
//! invariant: the chunk chain of every block tiles the block exactly, and
//! an allocate immediately undone by a free leaves every statistic as it
//! was.

use crate::pool::MemoryPool;
use vstd::prelude::*;

verus! {

/// The chunk keys reachable from chunk `i` by following `next`, `i` first.
pub open spec fn chain_from(pool: MemoryPool, i: int) -> Seq<int>
    recommends
        pool.wf(),
        pool.chunk_live(i),
    decreases pool.block_size - pool.chunk_at(i).offset,
        when pool.chunk_live(i) && pool.wf_chunk_links(i)
{
    match pool.chunk_at(i).next {
        Some(n) => seq![i] + chain_from(pool, n as int),
        None => seq![i],
    }
}

/// Following `next` from any live chunk visits live chunks of one block,
/// each beginning exactly where the one before it ends, stopping only at
/// the block's end.
#[verifier::rlimit(100)]
pub proof fn lemma_chain_contiguous(pool: MemoryPool, i: int)
    requires
        forall|j: int| pool.chunk_live(j) ==> #[trigger] pool.wf_chunk_links(j),
        pool.chunk_live(i),
    ensures
        ({
            let ch = chain_from(pool, i);
            &&& ch.len() >= 1
            &&& ch[0] == i
            &&& forall|q: int| 0 <= q < ch.len() ==> pool.chunk_live(#[trigger] ch[q])
            &&& forall|q: int| 0 <= q < ch.len() ==> 1 <= pool.chunk_at(#[trigger] ch[q]).size
            &&& forall|q: int|
                0 <= q < ch.len() ==> pool.chunk_at(#[trigger] ch[q]).block_key == pool.chunk_at(
                    i,
                ).block_key
            &&& forall|q1: int, q2: int|
                0 <= q1 && q2 == q1 + 1 && q2 < ch.len() ==> pool.chunk_at(
                    #[trigger] ch[q2],
                ).offset == pool.chunk_at(#[trigger] ch[q1]).offset + pool.chunk_at(ch[q1]).size
            &&& pool.chunk_at(ch.last()).next is None
            &&& pool.chunk_at(ch.last()).offset + pool.chunk_at(ch.last()).size
                == pool.block_size
        }),
    decreases pool.block_size - pool.chunk_at(i).offset,
{
    assert(pool.wf_chunk_links(i));
    let ch = chain_from(pool, i);
    match pool.chunk_at(i).next {
        Some(n) => {
            lemma_chain_contiguous(pool, n as int);
            let tail = chain_from(pool, n as int);
            assert(ch == seq![i] + tail);
            assert(ch[0] == i);
            assert(ch.last() == tail.last());
            assert forall|q1: int, q2: int|
                0 <= q1 && q2 == q1 + 1 && q2 < ch.len() implies pool.chunk_at(
                #[trigger] ch[q2],
            ).offset == pool.chunk_at(#[trigger] ch[q1]).offset + pool.chunk_at(
                ch[q1],
            ).size by {
                if q1 == 0 {
                    assert(ch[1] == tail[0]);
                    assert(tail[0] == n);
                } else {
                    assert(ch[q2] == tail[q2 - 1]);
                    assert(ch[q1] == tail[q1 - 1]);
                }
            }
        },
        None => {},
    }
}

/// Along a chain whose every link starts where the one before it ends,
/// offsets strictly increase, so no chunk is visited twice.
#[verifier::rlimit(100)]
proof fn lemma_chain_increasing(pool: MemoryPool, ch: Seq<int>)
    requires
        forall|q: int| 0 <= q < ch.len() ==> 1 <= pool.chunk_at(#[trigger] ch[q]).size,
        forall|q1: int, q2: int|
            0 <= q1 && q2 == q1 + 1 && q2 < ch.len() ==> pool.chunk_at(#[trigger] ch[q2]).offset
                == pool.chunk_at(#[trigger] ch[q1]).offset + pool.chunk_at(ch[q1]).size,
    ensures
        forall|q1: int, q2: int|
            0 <= q1 < q2 < ch.len() ==> pool.chunk_at(#[trigger] ch[q1]).offset < pool.chunk_at(
                #[trigger] ch[q2],
            ).offset,
    decreases ch.len(),
{
    if ch.len() > 1 {
        lemma_chain_increasing(pool, ch.drop_last());
        assert forall|q1: int, q2: int| 0 <= q1 < q2 < ch.len() implies pool.chunk_at(
            #[trigger] ch[q1],
        ).offset < pool.chunk_at(#[trigger] ch[q2]).offset by {
            if q2 == ch.len() - 1 {
                assert(pool.chunk_at(ch[q2]).offset == pool.chunk_at(ch[q2 - 1]).offset
                    + pool.chunk_at(ch[q2 - 1]).size);
                if q1 < q2 - 1 {
                    assert(ch.drop_last()[q1] == ch[q1]);
                    assert(ch.drop_last()[q2 - 1] == ch[q2 - 1]);
                    assert(pool.chunk_at(ch[q1]).offset < pool.chunk_at(ch[q2 - 1]).offset);
                }
            } else {
                assert(ch.drop_last()[q1] == ch[q1]);
                assert(ch.drop_last()[q2] == ch[q2]);
            }
        }
    }
}

/// The coverage law: for any non-dedicated block, the chunk chain starting
/// from the block's start chunk (the one with no `previous`) covers the
/// byte range from 0 to the block's size exactly once — the first chunk
/// starts at byte 0, each later chunk starts exactly where the one before
/// it ends, the last chunk ends exactly at the block's size, and no chunk
/// is visited twice.
#[verifier::rlimit(100)]
pub proof fn lemma_chain_covers_block(pool: MemoryPool, start: int)
    requires
        forall|j: int| pool.chunk_live(j) ==> #[trigger] pool.wf_chunk_links(j),
        pool.chunk_live(start),
        pool.chunk_at(start).previous is None,
    ensures
        ({
            let ch = chain_from(pool, start);
            &&& ch.len() >= 1
            &&& ch[0] == start
            &&& pool.chunk_at(ch[0]).offset == 0
            &&& forall|q: int| 0 <= q < ch.len() ==> pool.chunk_live(#[trigger] ch[q])
            &&& forall|q: int|
                0 <= q < ch.len() ==> pool.chunk_at(#[trigger] ch[q]).block_key == pool.chunk_at(
                    start,
                ).block_key
            &&& forall|q1: int, q2: int|
                0 <= q1 && q2 == q1 + 1 && q2 < ch.len() ==> pool.chunk_at(
                    #[trigger] ch[q2],
                ).offset == pool.chunk_at(#[trigger] ch[q1]).offset + pool.chunk_at(ch[q1]).size
            &&& pool.chunk_at(ch.last()).offset + pool.chunk_at(ch.last()).size
                == pool.block_size
            &&& forall|q1: int, q2: int| 0 <= q1 < q2 < ch.len() ==> ch[q1] != ch[q2]
        }),
{
    assert(pool.wf_chunk_links(start));
    lemma_chain_contiguous(pool, start);
    let ch = chain_from(pool, start);
    lemma_chain_increasing(pool, ch);
    assert forall|q1: int, q2: int| 0 <= q1 < q2 < ch.len() implies ch[q1] != ch[q2] by {
        assert(pool.chunk_at(ch[q1]).offset < pool.chunk_at(ch[q2]).offset);
    }
}

/// The alignment law: the offset a request is granted in any candidate
/// chunk is a multiple of the requested alignment, provided the
/// buffer-image granularity is itself a multiple of the alignment (the
/// granularity is a page size, far above ordinary alignments). Without a
/// granularity push the offset is aligned unconditionally.
pub proof fn lemma_offset_respects_alignment(
    pool: MemoryPool,
    k: int,
    alignment: int,
    granularity: int,
    ct: crate::types::ChunkType,
)
    requires
        pool.chunk_live(k),
        0 < alignment,
        0 < granularity,
        granularity % alignment == 0,
    ensures
        pool.cand_offset(k, alignment, granularity, ct) % alignment == 0,
{
    let c = pool.chunk_at(k);
    let a0 = crate::math::spec_align_up(c.offset as int, alignment);
    crate::math::lemma_align_up_props(c.offset as int, alignment);
    let pushed = crate::math::spec_align_up(a0, granularity);
    crate::math::lemma_align_up_props(a0, granularity);
    assert(pushed % granularity == 0);
    assert(pushed % alignment == 0) by {
        vstd::arithmetic::div_mod::lemma_fundamental_div_mod(pushed, granularity);
        vstd::arithmetic::div_mod::lemma_fundamental_div_mod(granularity, alignment);
        let q = pushed / granularity;
        let t = granularity / alignment;
        assert(pushed == granularity * q);
        assert(granularity == alignment * t);
        assert(pushed == alignment * (t * q)) by (nonlinear_arith)
            requires
                pushed == granularity * q,
                granularity == alignment * t,
        ;
        vstd::arithmetic::div_mod::lemma_fundamental_div_mod_converse(
            pushed,
            alignment,
            t * q,
            0,
        );
    }
}

/// The round-trip law: serving a request from the free chunks and freeing
/// it again returns every pool statistic to its prior value. The premises
/// are exactly what `try_allocate` promises of the allocation step (the
/// granted chunk's size is the step's whole accounting delta) and what
/// `free_chunk` promises of the free step.
pub proof fn lemma_allocate_free_round_trip(
    p0: MemoryPool,
    p1: MemoryPool,
    p2: MemoryPool,
    k: int,
)
    requires
        p1.chunk_live(k),
        p1.spec_used_bytes() == p0.spec_used_bytes() + p1.chunk_at(k).size,
        p1.spec_unused_bytes() == p0.spec_unused_bytes() - p1.chunk_at(k).size,
        p1.spec_allocation_count() == p0.spec_allocation_count() + 1,
        p1.spec_block_count() == p0.spec_block_count(),
        p2.spec_used_bytes() == p1.spec_used_bytes() - p1.chunk_at(k).size,
        p2.spec_unused_bytes() == p1.spec_unused_bytes() + p1.chunk_at(k).size,
        p2.spec_allocation_count() == p1.spec_allocation_count() - 1,
        p2.spec_block_count() == p1.spec_block_count(),
    ensures
        p2.spec_used_bytes() == p0.spec_used_bytes(),
        p2.spec_unused_bytes() == p0.spec_unused_bytes(),
        p2.spec_allocation_count() == p0.spec_allocation_count(),
        p2.spec_block_count() == p0.spec_block_count(),
{
}

} // verus!

//! Power-of-two size classes for the segregated free lists.
//!
//! Sizes up to 256 bytes share bucket 0; past that, doubling the size
//! advances the bucket index by exactly one, so bucket `b >= 1` holds the
//! sizes in `(256 * 2^(b-1), 256 * 2^b]`.

use vstd::arithmetic::power2::{lemma2_to64, lemma2_to64_rest, lemma_pow2_unfold, pow2};
use vstd::prelude::*;

verus! {

/// The size class of a request or free chunk of `size` bytes.
pub open spec fn bucket_of(size: int) -> nat
    recommends
        1 <= size,
    decreases size,
{
    if size <= 256 {
        0
    } else {
        (1 + bucket_of((size + 1) / 2)) as nat
    }
}

/// The bucket boundaries: bucket `b >= 1` holds exactly the sizes in
/// `(256 * 2^(b-1), 256 * 2^b]`.
pub proof fn lemma_bucket_range(size: int, b: int)
    requires
        1 <= b,
        256 * pow2((b - 1) as nat) < size <= 256 * pow2(b as nat),
    ensures
        bucket_of(size) == b,
    decreases b,
{
    lemma2_to64();
    lemma_pow2_unfold(b as nat);
    let half = (size + 1) / 2;
    assert(pow2(b as nat) == 2 * pow2((b - 1) as nat));
    assert(256 * pow2((b - 1) as nat) < size <= 2 * (256 * pow2((b - 1) as nat)));
    let m = 256int * pow2((b - 1) as nat);
    assert(half <= m) by {
        assert(size + 1 <= 2 * m + 1);
        assert((2 * m + 1) / 2 == m);
    }
    assert(m / 2 < half) by {
        assert(size + 1 >= m + 2);
        assert((m + 2) / 2 == m / 2 + 1);
        vstd::arithmetic::div_mod::lemma_div_is_ordered(m + 2, size + 1, 2);
    }
    if b == 1 {
        assert(bucket_of(size) == 1 + bucket_of(half));
        assert(bucket_of(half) == 0);
    } else {
        assert(m / 2 == 256 * pow2((b - 2) as nat)) by {
            lemma_pow2_unfold((b - 1) as nat);
            assert(m == 2 * (256 * pow2((b - 2) as nat)));
        }
        lemma_bucket_range(half, b - 1);
    }
}

/// Bucket monotonicity: a larger size never lands in a smaller bucket.
pub proof fn lemma_bucket_monotonic(s1: int, s2: int)
    requires
        1 <= s1 <= s2,
    ensures
        bucket_of(s1) <= bucket_of(s2),
    decreases s2,
{
    if s2 <= 256 {
    } else if s1 <= 256 {
    } else {
        vstd::arithmetic::div_mod::lemma_div_is_ordered(s1 + 1, s2 + 1, 2);
        lemma_bucket_monotonic((s1 + 1) / 2, (s2 + 1) / 2);
    }
}

/// No `u64` size lands past bucket 56.
pub proof fn lemma_bucket_u64_max(size: int)
    requires
        1 <= size <= u64::MAX,
    ensures
        bucket_of(size) <= 56,
{
    lemma2_to64();
    lemma2_to64_rest();
    if size > 0x8000_0000_0000_0000 {
        assert(256 * pow2(55) == 0x8000_0000_0000_0000);
        assert(256 * pow2(56) == 0x1_0000_0000_0000_0000);
        lemma_bucket_range(size, 56);
    } else if size > 256 {
        let b = bucket_of(size);
        lemma_bucket_monotonic(size, 0x8000_0000_0000_0000);
        assert(256 * pow2(55) == 0x8000_0000_0000_0000);
        lemma_bucket_range(0x8000_0000_0000_0000, 55);
    }
}

/// Maps a byte size to its size-class index: bucket 0 for sizes up to 256
/// bytes, after which doubling the size advances exactly one bucket.
pub fn calculate_bucket_index(size: u64) -> (b: u32)
    requires
        1 <= size,
    ensures
        b == bucket_of(size as int),
{
    if size <= 256 {
        return 0;
    }
    let mut b: u32 = 1;
    let mut bound: u64 = 512;
    proof {
        lemma2_to64();
    }
    while bound < size
        invariant
            1 <= b <= 56,
            256 < size <= u64::MAX,
            b <= 55 ==> bound == 256 * pow2(b as nat),
            b == 56 ==> bound == u64::MAX,
            size > 256 * pow2((b - 1) as nat),
        decreases 57 - b,
    {
        if bound == 0x8000_0000_0000_0000u64 {
            proof {
                lemma2_to64();
                lemma2_to64_rest();
                assert(b == 55) by {
                    if b < 55 {
                        lemma_pow2_strict_bound(b as nat);
                    }
                };
            }
            bound = u64::MAX;
            b = b + 1;
        } else {
            proof {
                lemma2_to64();
                lemma2_to64_rest();
                assert(b <= 54) by {
                    if b == 55 {
                        assert(256 * pow2(55) == 0x8000_0000_0000_0000);
                    }
                    if b == 56 {
                        assert(bound == u64::MAX);
                        assert(size <= u64::MAX);
                    }
                };
                lemma_pow2_strict_bound(b as nat);
                lemma_pow2_unfold((b + 1) as nat);
            }
            bound = bound * 2;
            b = b + 1;
        }
    }
    proof {
        lemma2_to64();
        lemma2_to64_rest();
        if b <= 55 {
            lemma_bucket_range(size as int, b as int);
        } else {
            assert(256 * pow2(55) == 0x8000_0000_0000_0000);
            assert(256 * pow2(56) == 0x1_0000_0000_0000_0000);
            lemma_bucket_range(size as int, 56);
        }
    }
    b
}

/// For bucket indices up to 54, the bucket bound fits strictly below 2^63.
proof fn lemma_pow2_strict_bound(b: nat)
    requires
        1 <= b <= 54,
    ensures
        256 * pow2(b) <= 0x4000_0000_0000_0000,
{
    lemma2_to64();
    lemma2_to64_rest();
    if b < 54 {
        vstd::arithmetic::power2::lemma_pow2_strictly_increases(b, 54);
    }
    assert(256 * pow2(54) == 0x4000_0000_0000_0000);
}

} // verus!

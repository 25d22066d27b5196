//! Alignment arithmetic on byte offsets, and the page-sharing test used by
//! the buffer-image granularity rule.

use vstd::arithmetic::div_mod::{
    lemma_fundamental_div_mod, lemma_fundamental_div_mod_converse, lemma_mod_bound,
};
use vstd::arithmetic::mul::{lemma_mul_is_commutative, lemma_mul_is_distributive_add};
use vstd::arithmetic::power2::{lemma2_to64, lemma2_to64_rest, lemma_pow2_strictly_increases, lemma_pow2_unfold, pow2};
use vstd::bits::{lemma_u64_low_bits_mask_is_mod, lemma_u64_pow2_no_overflow, lemma_u64_shr_is_div};
use vstd::prelude::*;

verus! {

/// A power of two, stated over the bits: exactly one bit set.
pub open spec fn is_pow2(x: u64) -> bool {
    x != 0 && (x & (x - 1) as u64) == 0
}

/// `x` rounded down to a multiple of `a`.
pub open spec fn spec_align_down(x: int, a: int) -> int {
    (x / a) * a
}

/// `x` rounded up to a multiple of `a`.
pub open spec fn spec_align_up(x: int, a: int) -> int {
    ((x + a - 1) / a) * a
}

/// A power of two is at most 2^63, so alignment arithmetic on offsets
/// below 2^63 cannot overflow a `u64`.
pub proof fn lemma_pow2_bounds(a: u64)
    requires
        is_pow2(a),
    ensures
        1 <= a <= 0x8000_0000_0000_0000u64,
{
    assert(a != 0 && (a & (a - 1) as u64) == 0 ==> a <= 0x8000_0000_0000_0000u64)
        by (bit_vector);
}

/// What rounding down means: the result is the largest multiple of `a`
/// that is at most `x`.
pub proof fn lemma_align_down_props(x: int, a: int)
    requires
        0 <= x,
        0 < a,
    ensures
        spec_align_down(x, a) % a == 0,
        x - a < spec_align_down(x, a) <= x,
        spec_align_down(x, a) == x - x % a,
{
    lemma_fundamental_div_mod(x, a);
    lemma_mod_bound(x, a);
    let q = x / a;
    let r = x % a;
    assert(x == a * q + r);
    lemma_mul_is_commutative(q, a);
    lemma_fundamental_div_mod_converse(q * a, a, q, 0);
    assert((q * a) % a == 0);
}

/// What rounding up means: the result is the smallest multiple of `a`
/// that is at least `x`.
pub proof fn lemma_align_up_props(x: int, a: int)
    requires
        0 <= x,
        0 < a,
    ensures
        spec_align_up(x, a) % a == 0,
        x <= spec_align_up(x, a) < x + a,
        x % a == 0 ==> spec_align_up(x, a) == x,
        spec_align_up(x, a) == if x % a == 0 {
            x
        } else {
            x + a - x % a
        },
{
    lemma_fundamental_div_mod(x, a);
    lemma_mod_bound(x, a);
    let q = x / a;
    let r = x % a;
    assert(x == a * q + r);
    lemma_mul_is_commutative(q, a);
    lemma_mul_is_commutative(q + 1, a);
    if r == 0 {
        lemma_fundamental_div_mod_converse(x + a - 1, a, q, a - 1);
        assert((x + a - 1) / a == q);
        lemma_fundamental_div_mod_converse(q * a, a, q, 0);
    } else {
        lemma_mul_is_distributive_add(a, q, 1);
        assert((q + 1) * a == q * a + a);
        lemma_fundamental_div_mod_converse(x + a - 1, a, q + 1, r - 1);
        assert((x + a - 1) / a == q + 1);
        lemma_fundamental_div_mod_converse((q + 1) * a, a, q + 1, 0);
    }
}

/// A value with exactly one bit set is a power of two in the arithmetic
/// sense as well.
proof fn lemma_pow2_exponent(a: u64) -> (k: nat)
    requires
        is_pow2(a),
    ensures
        k < 64,
        a == pow2(k),
    decreases a,
{
    if a == 1 {
        lemma2_to64();
        0
    } else {
        assert(a != 0 && (a & (a - 1) as u64) == 0 && a != 1 ==> {
            &&& a >> 1u64 != 0
            &&& ((a >> 1u64) & ((a >> 1u64) - 1) as u64) == 0
            &&& (a >> 1u64) < a
            &&& a == 2 * (a >> 1u64)
        }) by (bit_vector);
        lemma_u64_shr_is_div(a, 1);
        lemma2_to64();
        lemma2_to64_rest();
        let k1 = lemma_pow2_exponent(a >> 1u64);
        if k1 + 1 >= 64 {
            lemma_pow2_strictly_increases(63, k1);
        }
        lemma_pow2_unfold(k1 + 1);
        k1 + 1
    }
}

/// The bit trick `x & !(a - 1)` rounds down to a multiple of the power of
/// two `a`.
proof fn lemma_mask_is_align_down(x: u64, a: u64)
    requires
        is_pow2(a),
    ensures
        x & !((a - 1) as u64) == spec_align_down(x as int, a as int),
{
    let k = lemma_pow2_exponent(a);
    lemma_u64_pow2_no_overflow(k);
    assert(a - 1 == vstd::bits::low_bits_mask(k));
    lemma_u64_low_bits_mask_is_mod(x, k);
    assert(x & ((a - 1) as u64) == x % a);
    assert((x & !((a - 1) as u64)) + (x & ((a - 1) as u64)) == x) by (bit_vector);
    lemma_align_down_props(x as int, a as int);
}

/// Tests whether `x` is a power of two: nonzero, with exactly one bit set.
pub fn is_power_of_two(x: u64) -> (r: bool)
    ensures
        r == is_pow2(x),
{
    x != 0 && (x & (x - 1)) == 0
}

/// Rounds `offset` down to a multiple of `alignment`.
pub fn align_down(offset: u64, alignment: u64) -> (r: u64)
    requires
        is_pow2(alignment),
    ensures
        r == spec_align_down(offset as int, alignment as int),
{
    proof {
        lemma_mask_is_align_down(offset, alignment);
    }
    offset & !(alignment - 1)
}

/// Rounds `offset` up to a multiple of `alignment`.
pub fn align_up(offset: u64, alignment: u64) -> (r: u64)
    requires
        is_pow2(alignment),
        offset + alignment - 1 <= u64::MAX,
    ensures
        r == spec_align_up(offset as int, alignment as int),
{
    proof {
        lemma_mask_is_align_down((offset + (alignment - 1)) as u64, alignment);
    }
    (offset + (alignment - 1)) & !(alignment - 1)
}

/// Whether the byte range starting at `offset_a` of length `size_a` ends on
/// the same `page_size`-aligned page on which the range starting at
/// `offset_b` begins.
pub open spec fn spec_same_page(offset_a: int, size_a: int, offset_b: int, page_size: int) -> bool {
    spec_align_down(offset_a + size_a - 1, page_size) == spec_align_down(offset_b, page_size)
}

/// Page-sharing test for the buffer-image granularity rule: a linear and an
/// optimal resource may not share one `page_size`-aligned device page.
pub fn is_on_same_page(offset_a: u64, size_a: u64, offset_b: u64, page_size: u64) -> (r: bool)
    requires
        is_pow2(page_size),
        0 < size_a,
        offset_a + size_a - 1 <= u64::MAX,
    ensures
        r == spec_same_page(offset_a as int, size_a as int, offset_b as int, page_size as int),
{
    let end_a = offset_a + (size_a - 1);
    let end_page_a = align_down(end_a, page_size);
    let start_page_b = align_down(offset_b, page_size);
    end_page_a == start_page_b
}

} // verus!

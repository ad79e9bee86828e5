//! Facts about shifts, leading zeros and trailing ones of 64-bit words.

use vstd::prelude::*;
use vstd::arithmetic::power2::pow2;
use vstd::bits::{lemma_u64_shl_is_mul, lemma_u64_pow2_no_overflow};
use vstd::std_specs::bits::{
    u64_leading_zeros, u64_trailing_ones, u64_trailing_zeros, axiom_u64_leading_zeros,
    axiom_u64_trailing_ones, axiom_u64_trailing_zeros,
};

verus! {

/// `1 << k` is `2^k`.
pub proof fn lemma_shl_pow2(k: u64)
    requires
        k < 64,
    ensures
        (1u64 << k) == pow2(k as nat),
        pow2(k as nat) < 0x1_0000_0000_0000_0000,
{
    lemma_u64_pow2_no_overflow(k as nat);
    lemma_u64_shl_is_mul(1, k);
}

proof fn lemma_bit_of_shl(k: u64, j: u64)
    by (bit_vector)
    requires
        k < 64,
        j < 64,
    ensures
        ((1u64 << k) >> j) & 1u64 == (if j == k {
            1u64
        } else {
            0u64
        }),
{
}

/// The trailing zeros of `1 << k` number `k`.
pub proof fn lemma_trailing_zeros_shl(k: u64)
    requires
        k < 64,
    ensures
        u64_trailing_zeros(1u64 << k) == k,
{
    let x = 1u64 << k;
    axiom_u64_trailing_zeros(x);
    let t = u64_trailing_zeros(x) as u64;
    assert(x != 0) by (bit_vector)
        requires
            x == 1u64 << k,
            k < 64,
    ;
    lemma_bit_of_shl(k, t);
    if t > k {
        assert((x >> k) & 1u64 == 0u64);
        lemma_bit_of_shl(k, k);
    }
}

/// `x >> 1` halves `x`.
pub proof fn lemma_shr1(x: u64)
    ensures
        x >> 1u64 == x / 2,
{
    assert(x >> 1u64 == x / 2) by (bit_vector);
}

/// For a non-zero size below `2^63`, the word of ones as wide as the size is
/// at least the size, has `64 - lz` trailing ones, and is one less than
/// `2^(64 - lz)`, where `lz` counts the size's leading zeros.
pub proof fn lemma_width_mask(sz: u64)
    requires
        0 < sz < 0x8000_0000_0000_0000,
    ensures
        ({
            let lz = u64_leading_zeros(sz);
            let start = 0xffff_ffff_ffff_ffffu64 >> (lz as u64);
            &&& 1 <= lz <= 63
            &&& sz <= start
            &&& u64_trailing_ones(start) == 64 - lz
            &&& start + 1 == pow2((64 - lz) as nat)
        }),
{
    axiom_u64_leading_zeros(sz);
    let lz = u64_leading_zeros(sz);
    let l = lz as u64;
    if lz == 0 {
        assert((sz >> 63u64) & 1u64 != 0u64);
        assert((sz >> 63u64) & 1u64 == 0u64) by (bit_vector)
            requires
                sz < 0x8000_0000_0000_0000u64,
        ;
    }
    let start = 0xffff_ffff_ffff_ffffu64 >> l;
    let w = (64 - l) as u64;
    assert(sz >> w == 0);
    assert(sz <= start) by (bit_vector)
        requires
            sz >> w == 0,
            w + l == 64,
            1 <= l <= 63,
            start == 0xffff_ffff_ffff_ffffu64 >> l,
    ;
    axiom_u64_trailing_ones(start);
    let t = u64_trailing_ones(start) as u64;
    assert(start != 0xffff_ffff_ffff_ffffu64) by (bit_vector)
        requires
            1 <= l <= 63,
            start == 0xffff_ffff_ffff_ffffu64 >> l,
    ;
    assert(t >= w) by (bit_vector)
        requires
            w + l == 64,
            t < 64,
            (start >> t) & 1u64 == 0u64,
            1 <= l <= 63,
            start == 0xffff_ffff_ffff_ffffu64 >> l,
    ;
    if t > w {
        assert((start >> w) & 1u64 == 1u64);
        assert((start >> w) & 1u64 == 0u64) by (bit_vector)
            requires
                1 <= l <= 63,
                w + l == 64,
                start == 0xffff_ffff_ffff_ffffu64 >> l,
        ;
    }
    assert(start + 1 == 1u64 << w) by (bit_vector)
        requires
            1 <= l <= 63,
            w + l == 64,
            start == 0xffff_ffff_ffff_ffffu64 >> l,
    ;
    lemma_shl_pow2(w);
}

} // verus!

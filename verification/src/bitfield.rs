//! Shifts and masks of `u64` values, read as divisions and remainders by
//! powers of two.

use vstd::prelude::*;
use vstd::arithmetic::power2::{pow2, lemma_pow2_pos, lemma_pow2_strictly_increases, lemma2_to64, lemma2_to64_rest};
use vstd::bits::{lemma_u64_shr_is_div, lemma_u64_shl_is_mul, lemma_u64_pow2_no_overflow, lemma_u64_low_bits_mask_is_mod, low_bits_mask};

verus! {

/// `x >> k` is `x / 2^k`.
pub proof fn lemma_shr(x: u64, k: u64)
    requires
        k < 64,
    ensures
        (x >> k) as nat == (x as nat) / pow2(k as nat),
        pow2(k as nat) > 0,
{
    lemma_u64_shr_is_div(x, k);
    lemma_pow2_pos(k as nat);
}

/// `2^k` is below `2^64` for `k < 64`, and at most `2^63`.
pub proof fn lemma_pow2_bound(k: nat)
    requires
        k < 64,
    ensures
        0 < pow2(k) <= 0x8000_0000_0000_0000,
{
    lemma_pow2_pos(k);
    lemma2_to64();
    lemma2_to64_rest();
    if k < 63 {
        lemma_pow2_strictly_increases(k, 63);
    }
}

/// `1 << k` is `2^k`.
pub proof fn lemma_one_shl(k: u64)
    requires
        k < 64,
    ensures
        (1u64 << k) as nat == pow2(k as nat),
        0 < pow2(k as nat) <= 0x8000_0000_0000_0000,
{
    lemma_pow2_bound(k as nat);
    lemma_u64_shl_is_mul(1, k);
}

/// `x << k` is `x * 2^k` where that fits in 64 bits.
pub proof fn lemma_shl(x: u64, k: u64)
    requires
        k < 64,
        x * pow2(k as nat) <= u64::MAX,
    ensures
        (x << k) as nat == x * pow2(k as nat),
{
    lemma_u64_shl_is_mul(x, k);
}

/// `x & mask` is `x % 2^k` when `mask` is `2^k - 1`.
pub proof fn lemma_low_mask(x: u64, mask: u64, k: nat)
    requires
        k < 64,
        mask as int == pow2(k) - 1,
    ensures
        (x & mask) as nat == (x as nat) % pow2(k),
        ((x & mask) as nat) < pow2(k),
{
    lemma_u64_pow2_no_overflow(k);
    assert(low_bits_mask(k) == pow2(k) - 1);
    lemma_u64_low_bits_mask_is_mod(x, k);
    lemma_pow2_pos(k);
}

} // verus!

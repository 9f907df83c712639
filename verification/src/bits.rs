//! How the bit operations of the fixed-width backends read as arithmetic.
use crate::theory::{lemma_pow2_128, lemma_pow2_64, two_128, two_64};
use vstd::arithmetic::div_mod::*;
use vstd::arithmetic::power2::*;
use vstd::prelude::*;

verus! {

/// The powers of two up to `2^64` fit the range that a `u64` mask needs.
pub proof fn lemma_pow2_bound_64(j: nat)
    requires
        j <= 64,
    ensures
        0 < pow2(j) <= two_64(),
        j < 64 ==> pow2(j) <= 0x8000_0000_0000_0000,
{
    lemma_pow2_pos(j);
    lemma_pow2_64();
    lemma2_to64_rest();
    if j < 64 {
        lemma_pow2_strictly_increases(j, 64);
        if j < 63 {
            lemma_pow2_strictly_increases(j, 63);
        }
    }
}

/// The powers of two up to `2^128` fit the range that a `u128` mask needs.
pub proof fn lemma_pow2_bound_128(j: nat)
    requires
        j <= 128,
    ensures
        0 < pow2(j) <= two_128(),
        j < 128 ==> 2 * pow2(j) <= two_128(),
{
    lemma_pow2_pos(j);
    lemma_pow2_128();
    if j < 128 {
        lemma_pow2_unfold(j + 1);
        if j + 1 < 128 {
            lemma_pow2_strictly_increases(j + 1, 128);
        }
    }
}

/// Masking a `u64` with the low `j` bits is the remainder modulo `2^j`.
pub proof fn lemma_low_mask_64(x: u64, j: nat)
    requires
        j <= 64,
    ensures
        0 <= pow2(j) - 1 <= u64::MAX,
        x & ((pow2(j) - 1) as u64) == (x as int) % (pow2(j) as int),
    decreases j,
{
    lemma_pow2_bound_64(j);
    if j == 0 {
        lemma2_to64();
        assert(x & 0 == 0) by (bit_vector);
    } else {
        let h = (j - 1) as nat;
        lemma_pow2_bound_64(h);
        lemma_pow2_unfold(j);
        let m = (pow2(h) - 1) as u64;
        let y = x / 2;
        lemma_low_mask_64(y, h);
        assert(m <= 0x7fff_ffff_ffff_ffff ==> x & ((2 * m + 1) as u64) == 2 * ((x / 2) & m) + x
            % 2) by (bit_vector);
        lemma_mod_breakdown(x as int, 2, pow2(h) as int);
    }
}

/// Masking a `u128` with the low `j` bits is the remainder modulo `2^j`.
pub proof fn lemma_low_mask_128(x: u128, j: nat)
    requires
        j <= 128,
    ensures
        0 <= pow2(j) - 1 <= u128::MAX,
        x & ((pow2(j) - 1) as u128) == (x as int) % (pow2(j) as int),
    decreases j,
{
    lemma_pow2_bound_128(j);
    if j == 0 {
        lemma2_to64();
        assert(x & 0 == 0) by (bit_vector);
    } else {
        let h = (j - 1) as nat;
        lemma_pow2_bound_128(h);
        lemma_pow2_unfold(j);
        let m = (pow2(h) - 1) as u128;
        let y = x / 2;
        lemma_low_mask_128(y, h);
        assert(m <= 0x7fff_ffff_ffff_ffff_ffff_ffff_ffff_ffff ==> x & ((2 * m + 1) as u128) == 2
            * ((x / 2) & m) + x % 2) by (bit_vector);
        lemma_mod_breakdown(x as int, 2, pow2(h) as int);
    }
}

/// Setting bit `k` of a `u64` below `2^k` adds `2^k`.
pub proof fn lemma_set_bit_64(x: u64, k: nat)
    requires
        k < 64,
        x < pow2(k),
    ensures
        pow2(k) <= u64::MAX,
        x | (pow2(k) as u64) == x + pow2(k),
{
    lemma_pow2_bound_64(k);
    let p = pow2(k) as u64;
    let m = (pow2(k) - 1) as u64;
    lemma_low_mask_64(x, k);
    lemma_low_mask_64(p, k);
    lemma_small_mod(x as nat, pow2(k));
    lemma_mod_self_0(pow2(k) as int);
    assert(x & m == x && p & m == 0 && m == p - 1 ==> x | p == x + p) by (bit_vector);
}

/// Setting bit `k` of a `u128` below `2^k` adds `2^k`.
pub proof fn lemma_set_bit_128(x: u128, k: nat)
    requires
        k < 128,
        x < pow2(k),
    ensures
        pow2(k) <= u128::MAX,
        x | (pow2(k) as u128) == x + pow2(k),
{
    lemma_pow2_bound_128(k);
    let p = pow2(k) as u128;
    let m = (pow2(k) - 1) as u128;
    lemma_low_mask_128(x, k);
    lemma_low_mask_128(p, k);
    lemma_small_mod(x as nat, pow2(k));
    lemma_mod_self_0(pow2(k) as int);
    assert(x & m == x && p & m == 0 && m == p - 1 ==> x | p == x + p) by (bit_vector);
}

/// Shifting a `u64` left by one bit doubles it, and drops the top bit.
pub proof fn lemma_shift_left_64(x: u64)
    ensures
        x < 0x8000_0000_0000_0000 ==> x << 1 == 2 * x,
        x == 0x8000_0000_0000_0000 ==> x << 1 == 0,
        x < 0x8000_0000_0000_0000 ==> (x << 1) | 1 == 2 * x + 1,
        0u64 << 1 == 0,
{
    assert(x < 0x8000_0000_0000_0000 ==> x << 1 == 2 * x) by (bit_vector);
    assert(x == 0x8000_0000_0000_0000 ==> x << 1 == 0) by (bit_vector);
    assert(x < 0x8000_0000_0000_0000 ==> (x << 1) | 1 == 2 * x + 1) by (bit_vector);
    assert(0u64 << 1 == 0) by (bit_vector);
}

/// Shifting a `u128` left by one bit doubles it, and drops the top bit.
pub proof fn lemma_shift_left_128(x: u128)
    ensures
        x < 0x8000_0000_0000_0000_0000_0000_0000_0000 ==> x << 1 == 2 * x,
        x == 0x8000_0000_0000_0000_0000_0000_0000_0000 ==> x << 1 == 0,
        x < 0x8000_0000_0000_0000_0000_0000_0000_0000 ==> (x << 1) | 1 == 2 * x + 1,
        0u128 << 1 == 0,
{
    assert(x < 0x8000_0000_0000_0000_0000_0000_0000_0000 ==> x << 1 == 2 * x) by (bit_vector);
    assert(x == 0x8000_0000_0000_0000_0000_0000_0000_0000 ==> x << 1 == 0) by (bit_vector);
    assert(x < 0x8000_0000_0000_0000_0000_0000_0000_0000 ==> (x << 1) | 1 == 2 * x + 1)
        by (bit_vector);
    assert(0u128 << 1 == 0) by (bit_vector);
}

} // verus!

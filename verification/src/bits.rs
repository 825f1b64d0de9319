//! Bit-level facts about masks, rotations and the split/recombine of a word
//! into two halves.

use vstd::prelude::*;

verus! {

/// The mask of the low `h` bits of a 32-bit word (all bits for `h >= 32`).
pub open spec fn low_mask32(h: u32) -> u32 {
    if h >= 32 {
        0xFFFF_FFFFu32
    } else {
        ((1u32 << h) - 1) as u32
    }
}

/// The mask of the low `h` bits of a 64-bit word (all bits for `h >= 64`).
pub open spec fn low_mask64(h: u32) -> u64 {
    if h >= 64 {
        0xFFFF_FFFF_FFFF_FFFFu64
    } else {
        ((1u64 << h) - 1) as u64
    }
}

/// Left rotation of a 64-bit word by `n mod 64` bits.
pub open spec fn rotl64(x: u64, n: u32) -> u64 {
    let m = n % 64;
    if m == 0 {
        x
    } else {
        (x << m) | (x >> ((64 - m) as u32))
    }
}

/// Left rotation of a 32-bit word by `n mod 32` bits.
pub open spec fn rotl32(x: u32, n: u32) -> u32 {
    let m = n % 32;
    if m == 0 {
        x
    } else {
        (x << m) | (x >> ((32 - m) as u32))
    }
}

/// The high half of the low `2h` bits of `x`.
pub open spec fn split_high(x: u64, h: u32) -> u32 {
    ((x >> h) & low_mask64(h)) as u32
}

/// The low half of the low `2h` bits of `x`.
pub open spec fn split_low(x: u64, h: u32) -> u32 {
    (x & low_mask64(h)) as u32
}

/// The word whose high half is `l` and whose low half is `r`.
pub open spec fn combine(l: u32, r: u32, h: u32) -> u64 {
    ((l as u64) << h) | (r as u64)
}

/// Rotates `x` left by `n mod 64` bits.
pub fn rotate_left_64(x: u64, n: u32) -> (r: u64)
    ensures
        r == rotl64(x, n),
{
    let m = n % 64;
    if m == 0 {
        x
    } else {
        (x << m) | (x >> (64 - m))
    }
}

/// Rotates `x` left by `n mod 32` bits.
pub fn rotate_left_32(x: u32, n: u32) -> (r: u32)
    ensures
        r == rotl32(x, n),
{
    let m = n % 32;
    if m == 0 {
        x
    } else {
        (x << m) | (x >> (32 - m))
    }
}

pub proof fn lemma_masks_nonzero(h: u32)
    by (bit_vector)
    requires
        h <= 32,
    ensures
        h < 32 ==> (1u32 << h) >= 1u32,
        (1u64 << h) >= 1u64,
        ((1u64 << h) - 1) as u64 == low_mask64(h),
{
}

/// Masking with `low_mask32(h)` stays under the mask.
pub proof fn lemma_and_mask32(x: u32, h: u32)
    by (bit_vector)
    requires
        h <= 32,
    ensures
        (x & low_mask32(h)) <= low_mask32(h),
{
}

/// XOR of two values under `low_mask32(h)` stays under it.
pub proof fn lemma_xor_under_mask(a: u32, b: u32, h: u32)
    by (bit_vector)
    requires
        h <= 32,
        a <= low_mask32(h),
        b <= low_mask32(h),
    ensures
        (a ^ b) <= low_mask32(h),
{
}

/// XOR-ing the same value twice gives back the original.
pub proof fn lemma_xor_cancel(a: u32, f: u32)
    by (bit_vector)
    ensures
        (a ^ f) ^ f == a,
{
}

/// Both halves of a word are under the half mask.
pub proof fn lemma_split_bounded(x: u64, h: u32)
    by (bit_vector)
    requires
        h <= 32,
    ensures
        split_high(x, h) <= low_mask32(h),
        split_low(x, h) <= low_mask32(h),
{
}

/// Splitting a recombined word gives back its halves, and the word is
/// under the mask of `2h` bits.
pub proof fn lemma_split_combine(l: u32, r: u32, h: u32)
    by (bit_vector)
    requires
        h <= 32,
        l <= low_mask32(h),
        r <= low_mask32(h),
    ensures
        split_high(combine(l, r, h), h) == l,
        split_low(combine(l, r, h), h) == r,
        combine(l, r, h) <= low_mask64((2 * h) as u32),
{
}

/// Recombining the halves of a word gives its low `2h` bits.
pub proof fn lemma_combine_split(x: u64, h: u32)
    by (bit_vector)
    requires
        h <= 32,
    ensures
        combine(split_high(x, h), split_low(x, h), h) == x & low_mask64((2 * h) as u32),
        split_high(x & low_mask64((2 * h) as u32), h) == split_high(x, h),
        split_low(x & low_mask64((2 * h) as u32), h) == split_low(x, h),
{
}

/// The subkey fold: the sum of the low and the high 32-bit halves of `x`,
/// modulo 2^32.
pub open spec fn fold32(x: u64) -> u32 {
    (((x as u32) as u64 + ((x >> 32u64) as u32) as u64) % 0x1_0000_0000) as u32
}

/// Complementing the key complements the scheduled word.
pub proof fn lemma_rotl64_complement(key: u64, n: u32, g: u64)
    by (bit_vector)
    ensures
        rotl64(!key, n) ^ g == !(rotl64(key, n) ^ g),
{
}

/// Complementing a word complements both of its halves, so its fold and the
/// fold of its complement add up to `2 * 0xFFFF_FFFF`, that is `0xFFFF_FFFE`
/// modulo 2^32.
pub proof fn lemma_fold_of_complement(x: u64)
    by (bit_vector)
    ensures
        (fold32(x) as u64 + fold32(!x) as u64) % 0x1_0000_0000 == 0xFFFF_FFFE,
{
}

/// The 40-bit mask.
pub proof fn lemma_low_mask64_40()
    by (bit_vector)
    ensures
        low_mask64(40) == 0xFF_FFFF_FFFFu64,
{
}

/// Masking twice with the same mask is masking once.
pub proof fn lemma_and_idempotent(x: u64, m: u64)
    by (bit_vector)
    ensures
        (x & m) & m == x & m,
{
}

/// Law: `rotl64` is the plain circular rotation of a 64-bit word: for every
/// word `x`, every amount `n` and every bit position `i`, bit
/// `(i + n) mod 64` of the result is bit `i` of `x`.
pub proof fn lemma_rotl64_moves_bits(x: u64, n: u32, i: u64)
    by (bit_vector)
    requires
        i < 64,
    ensures
        (rotl64(x, n) >> ((i + (n % 64) as u64) % 64)) & 1u64 == (x >> i) & 1u64,
{
}

/// Law: `rotl32` is the plain circular rotation of a 32-bit word: for every
/// word `x`, every amount `n` and every bit position `i`, bit
/// `(i + n) mod 32` of the result is bit `i` of `x`.
pub proof fn lemma_rotl32_moves_bits(x: u32, n: u32, i: u32)
    by (bit_vector)
    requires
        i < 32,
    ensures
        (rotl32(x, n) >> ((i + n % 32) % 32)) & 1u32 == (x >> i) & 1u32,
{
}

/// Masking to the low `h` bits of a 32-bit word keeps exactly the bits below
/// `h`.
pub proof fn lemma_low_mask32_keeps_low_bits(x: u32, h: u32)
    by (bit_vector)
    requires
        h <= 32,
    ensures
        (x & low_mask32(h)) as u64 == (x as u64) & (((1u64 << h) - 1u64) as u64),
        x & low_mask32(h) == (x & 0xFFFF_FFFFu32) & low_mask32(h),
{
}

/// Each byte of a big-endian sum of 8 bytes sits at its place.
pub proof fn lemma_be_bytes(b0: u8, b1: u8, b2: u8, b3: u8, b4: u8, b5: u8, b6: u8, b7: u8)
    by (bit_vector)
    ensures
        ({
            let k = ((b0 as u64) << 56u64) | ((b1 as u64) << 48u64) | ((b2 as u64) << 40u64) | ((
            b3 as u64) << 32u64) | ((b4 as u64) << 24u64) | ((b5 as u64) << 16u64) | ((b6 as u64)
                << 8u64) | (b7 as u64);
            &&& (k >> 56u64) & 0xFFu64 == b0 as u64
            &&& (k >> 48u64) & 0xFFu64 == b1 as u64
            &&& (k >> 40u64) & 0xFFu64 == b2 as u64
            &&& (k >> 32u64) & 0xFFu64 == b3 as u64
            &&& (k >> 24u64) & 0xFFu64 == b4 as u64
            &&& (k >> 16u64) & 0xFFu64 == b5 as u64
            &&& (k >> 8u64) & 0xFFu64 == b6 as u64
            &&& (k >> 0u64) & 0xFFu64 == b7 as u64
            &&& k as int == b0 as int * 0x100_0000_0000_0000 + b1 as int * 0x1_0000_0000_0000
                + b2 as int * 0x100_0000_0000 + b3 as int * 0x1_0000_0000 + b4 as int * 0x100_0000
                + b5 as int * 0x1_0000 + b6 as int * 0x100 + b7 as int
        }),
{
}

/// The `u32` casts of the fold take the low and the high halves of the word.
pub proof fn lemma_halves(x: u64)
    by (bit_vector)
    ensures
        (x as u32) as u64 == x % 0x1_0000_0000u64,
        ((x >> 32u64) as u32) as u64 == x / 0x1_0000_0000u64,
{
}

} // verus!

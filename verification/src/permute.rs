//! The core permutation: a balanced Feistel network with an ARX round
//! function, format-preserving over a 40-bit domain.
//!
//! Pure integer arithmetic: no allocation and no panics on any input.

use vstd::prelude::*;

use crate::bits::{
    combine, lemma_and_mask32, lemma_masks_nonzero, lemma_split_bounded, lemma_split_combine,
    lemma_xor_cancel, lemma_xor_under_mask, lemma_combine_split, lemma_fold_of_complement, fold32, lemma_rotl64_complement,
    lemma_low_mask64_40, lemma_and_idempotent, lemma_low_mask32_keeps_low_bits, lemma_halves, low_mask32, low_mask64, rotate_left_32,
    rotate_left_64, rotl32, rotl64, split_high, split_low,
};

verus! {

/// Width of the permutation domain, in bits.
pub const WIDTH_BITS: u32 = 40;

/// Number of Feistel rounds. Part of the contract: changing it changes every
/// output.
pub const ROUNDS: usize = 6;

/// Largest value in the domain: `2^40 - 1 = 1_099_511_627_775`.
pub const MAX_ID: u64 = 0xFF_FFFF_FFFFu64;

/// The golden-ratio constant used by the key schedule.
pub const GOLDEN: u64 = 0x9E37_79B9_7F4A_7C15u64;

/// The 32-bit round subkey that the key schedule derives from `key`:
/// `x = rotl64(key, (round * 7 + 1) mod 64) ^ (GOLDEN * (round + 1) mod 2^64)`,
/// folded to `(low32(x) + high32(x)) mod 2^32`.
pub open spec fn subkey_spec(key: u64, round: nat) -> u32 {
    fold32(schedule_word(key, round))
}

/// The 64-bit word `x` of the key schedule before the fold.
pub open spec fn schedule_word(key: u64, round: nat) -> u64 {
    rotl64(key, (((round % 64) * 7 + 1) % 64) as u32) ^ ((GOLDEN as nat * ((round + 1)
        % 0x1_0000_0000_0000_0000)) % 0x1_0000_0000_0000_0000) as u64
}

/// The ARX round function on one half: every add wraps modulo 2^32, every
/// rotation is over 32 bits, and the mask to `half` bits comes last.
pub open spec fn round_spec(r: u32, key: u64, round: nat, half: u32) -> u32 {
    let x0 = r.wrapping_add(subkey_spec(key, round));
    let x1 = x0 ^ rotl32(x0, 7);
    let x2 = x1.wrapping_add(rotl32(x1, 13));
    let x3 = x2 ^ rotl32(x2, 17);
    x3 & low_mask32(half)
}

/// The halves `(l, r)` after rounds `0, 1, ..., n - 1` of the forward pass.
pub open spec fn forward_rounds(l: u32, r: u32, key: u64, n: nat, half: u32) -> (u32, u32)
    decreases n,
{
    if n == 0 {
        (l, r)
    } else {
        let (a, b) = forward_rounds(l, r, key, (n - 1) as nat, half);
        (b, a ^ round_spec(b, key, (n - 1) as nat, half))
    }
}

/// The halves `(l, r)` after undoing rounds `n - 1, n - 2, ..., 0`.
pub open spec fn inverse_rounds(l: u32, r: u32, key: u64, n: nat, half: u32) -> (u32, u32)
    decreases n,
{
    if n == 0 {
        (l, r)
    } else {
        inverse_rounds(r ^ round_spec(l, key, (n - 1) as nat, half), l, key, (n - 1) as nat, half)
    }
}

/// The Feistel forward pass over `width` bits with `rounds` rounds.
pub open spec fn feistel_spec(input: u64, key: u64, rounds: nat, width: u32) -> u64 {
    let half = width / 2;
    let lr = forward_rounds(split_high(input, half), split_low(input, half), key, rounds, half);
    combine(lr.0, lr.1, half)
}

/// The Feistel inverse pass over `width` bits with `rounds` rounds.
pub open spec fn feistel_inv_spec(input: u64, key: u64, rounds: nat, width: u32) -> u64 {
    let half = width / 2;
    let lr = inverse_rounds(split_high(input, half), split_low(input, half), key, rounds, half);
    combine(lr.0, lr.1, half)
}

/// What `obfuscate(id, key)` computes.
pub open spec fn obfuscate_spec(id: u64, key: u64) -> u64 {
    feistel_spec(id & MAX_ID, key, ROUNDS as nat, WIDTH_BITS)
}

/// What `deobfuscate(code, key)` computes.
pub open spec fn deobfuscate_spec(code: u64, key: u64) -> u64 {
    feistel_inv_spec(code & MAX_ID, key, ROUNDS as nat, WIDTH_BITS)
}

/// The widths of the passes: even, and at most 64 so that each half fits a
/// `u32`.
pub open spec fn valid_width(width: u32) -> bool {
    width % 2 == 0 && width <= 64
}

/// Derives the 32-bit round subkey from the 64-bit master key.
///
/// The rotation amount is reduced modulo 64 and all arithmetic on `x` wraps
/// modulo 2^64; the result is the wrapping sum of
/// the low and the high 32 bits of `x`.
pub fn subkey(key: u64, round: usize) -> (k: u32)
    ensures
        k == subkey_spec(key, round as nat),
{
    let r = round as u64;
    let amount = (((r % 64) as u32) * 7 + 1) % 64;
    assert(amount == (((round as nat % 64) * 7 + 1) % 64) as u32);
    let next = r.wrapping_add(1);
    assert(next == (round as nat + 1) % 0x1_0000_0000_0000_0000);
    let g = GOLDEN.wrapping_mul(next);
    assert(g == ((GOLDEN as nat * ((round as nat + 1) % 0x1_0000_0000_0000_0000))
        % 0x1_0000_0000_0000_0000) as u64);
    let x = rotate_left_64(key, amount) ^ g;
    assert(x == schedule_word(key, round as nat));
    (x as u32).wrapping_add((x >> 32u64) as u32)
}

/// ARX round function: mixes one `half_bits`-wide half with the round subkey.
fn round_fn(r: u32, key: u64, round: usize, half_bits: u32) -> (f: u32)
    requires
        half_bits <= 32,
    ensures
        f == round_spec(r, key, round as nat, half_bits),
        f <= low_mask32(half_bits),
{
    proof {
        lemma_masks_nonzero(half_bits);
    }
    let mask = if half_bits >= 32 {
        0xFFFF_FFFFu32
    } else {
        (1u32 << half_bits) - 1
    };
    let rk = subkey(key, round);
    let mut x = r.wrapping_add(rk);
    x = x ^ rotate_left_32(x, 7);
    x = x.wrapping_add(rotate_left_32(x, 13));
    x = x ^ rotate_left_32(x, 17);
    proof {
        lemma_and_mask32(x, half_bits);
    }
    x & mask
}

/// The round function's output fits in `half` bits.
proof fn lemma_round_bounded(r: u32, key: u64, round: nat, half: u32)
    requires
        half <= 32,
    ensures
        round_spec(r, key, round, half) <= low_mask32(half),
{
    let x0 = r.wrapping_add(subkey_spec(key, round));
    let x1 = x0 ^ rotl32(x0, 7);
    let x2 = x1.wrapping_add(rotl32(x1, 13));
    let x3 = x2 ^ rotl32(x2, 17);
    lemma_and_mask32(x3, half);
}

/// Every round keeps both halves under the half mask.
proof fn lemma_forward_bounded(l: u32, r: u32, key: u64, n: nat, half: u32)
    requires
        half <= 32,
        l <= low_mask32(half),
        r <= low_mask32(half),
    ensures
        forward_rounds(l, r, key, n, half).0 <= low_mask32(half),
        forward_rounds(l, r, key, n, half).1 <= low_mask32(half),
    decreases n,
{
    if n > 0 {
        lemma_forward_bounded(l, r, key, (n - 1) as nat, half);
        let (a, b) = forward_rounds(l, r, key, (n - 1) as nat, half);
        let f = round_spec(b, key, (n - 1) as nat, half);
        lemma_round_bounded(b, key, (n - 1) as nat, half);
        lemma_xor_under_mask(a, f, half);
    }
}

/// Every undone round keeps both halves under the half mask.
proof fn lemma_inverse_bounded(l: u32, r: u32, key: u64, n: nat, half: u32)
    requires
        half <= 32,
        l <= low_mask32(half),
        r <= low_mask32(half),
    ensures
        inverse_rounds(l, r, key, n, half).0 <= low_mask32(half),
        inverse_rounds(l, r, key, n, half).1 <= low_mask32(half),
    decreases n,
{
    if n > 0 {
        let f = round_spec(l, key, (n - 1) as nat, half);
        lemma_round_bounded(l, key, (n - 1) as nat, half);
        lemma_xor_under_mask(r, f, half);
        lemma_inverse_bounded(r ^ f, l, key, (n - 1) as nat, half);
    }
}

/// Undoing the rounds of the forward pass gives back the halves.
pub proof fn lemma_inverse_undoes_forward(l: u32, r: u32, key: u64, n: nat, half: u32)
    ensures
        ({
            let (a, b) = forward_rounds(l, r, key, n, half);
            inverse_rounds(a, b, key, n, half) == (l, r)
        }),
    decreases n,
{
    if n > 0 {
        let (a, b) = forward_rounds(l, r, key, (n - 1) as nat, half);
        let f = round_spec(b, key, (n - 1) as nat, half);
        lemma_xor_cancel(a, f);
        lemma_inverse_undoes_forward(l, r, key, (n - 1) as nat, half);
    }
}

/// Running the forward pass on the result of undoing the rounds gives back
/// the halves.
pub proof fn lemma_forward_undoes_inverse(l: u32, r: u32, key: u64, n: nat, half: u32)
    ensures
        ({
            let (a, b) = inverse_rounds(l, r, key, n, half);
            forward_rounds(a, b, key, n, half) == (l, r)
        }),
    decreases n,
{
    if n > 0 {
        let m = (n - 1) as nat;
        let f = round_spec(l, key, m, half);
        // inverse_rounds(l, r, n) == inverse_rounds(r ^ f, l, m)
        lemma_forward_undoes_inverse(r ^ f, l, key, m, half);
        // so forward_rounds(.., m) == (r ^ f, l), and one more round gives
        // (l, (r ^ f) ^ f) == (l, r)
        lemma_xor_cancel(r, f);
    }
}

/// Feistel forward pass over `width` bits with `rounds` rounds.
///
/// `width` must be even and at most 64. Bits of `input` above `width` are
/// ignored.
pub fn feistel_n(input: u64, key: u64, rounds: usize, width: u32) -> (out: u64)
    requires
        valid_width(width),
    ensures
        out == feistel_spec(input, key, rounds as nat, width),
        out <= low_mask64(width),
{
    let half = width / 2;
    proof {
        lemma_masks_nonzero(half);
    }
    let mask = (1u64 << half) - 1;
    let mut l = ((input >> half) & mask) as u32;
    let mut r = (input & mask) as u32;
    let ghost l0 = l;
    let ghost r0 = r;
    proof {
        lemma_split_bounded(input, half);
    }
    for round in 0..rounds
        invariant
            half <= 32,
            l0 <= low_mask32(half),
            r0 <= low_mask32(half),
            (l, r) == forward_rounds(l0, r0, key, round as nat, half),
    {
        let f = round_fn(r, key, round, half);
        let new_l = r;
        let new_r = l ^ f;
        l = new_l;
        r = new_r;
    }
    proof {
        lemma_forward_bounded(l0, r0, key, rounds as nat, half);
        lemma_split_combine(l, r, half);
    }
    ((l as u64) << half) | (r as u64)
}

/// Feistel inverse pass: the exact inverse of [`feistel_n`] for the same
/// `(key, rounds, width)`.
pub fn feistel_n_inv(input: u64, key: u64, rounds: usize, width: u32) -> (out: u64)
    requires
        valid_width(width),
    ensures
        out == feistel_inv_spec(input, key, rounds as nat, width),
        out <= low_mask64(width),
{
    let half = width / 2;
    proof {
        lemma_masks_nonzero(half);
    }
    let mask = (1u64 << half) - 1;
    let mut l = ((input >> half) & mask) as u32;
    let mut r = (input & mask) as u32;
    let ghost goal = inverse_rounds(l, r, key, rounds as nat, half);
    proof {
        lemma_split_bounded(input, half);
    }
    let mut remaining = rounds;
    while remaining > 0
        invariant
            half <= 32,
            remaining <= rounds,
            l <= low_mask32(half),
            r <= low_mask32(half),
            inverse_rounds(l, r, key, remaining as nat, half) == goal,
        decreases remaining,
    {
        remaining = remaining - 1;
        let round = remaining;
        let r_prev = l;
        let f = round_fn(r_prev, key, round, half);
        proof {
            lemma_xor_under_mask(r, f, half);
        }
        let l_prev = r ^ f;
        l = l_prev;
        r = r_prev;
    }
    proof {
        lemma_split_combine(l, r, half);
    }
    ((l as u64) << half) | (r as u64)
}

/// Law: the inverse pass undoes the forward pass. For every even width
/// below 64, every key and every round count, `feistel_n_inv` recovers the
/// low `width` bits of the input of `feistel_n`.
pub proof fn lemma_feistel_round_trip(input: u64, key: u64, rounds: nat, width: u32)
    requires
        valid_width(width),
    ensures
        feistel_inv_spec(feistel_spec(input, key, rounds, width), key, rounds, width) == input
            & low_mask64(width),
{
    let h = width / 2;
    let l = split_high(input, h);
    let r = split_low(input, h);
    lemma_split_bounded(input, h);
    lemma_forward_bounded(l, r, key, rounds, h);
    let (a, b) = forward_rounds(l, r, key, rounds, h);
    lemma_split_combine(a, b, h);
    lemma_inverse_undoes_forward(l, r, key, rounds, h);
    lemma_combine_split(input, h);
}

/// Law: the forward pass undoes the inverse pass, so the forward pass is onto
/// the `width`-bit domain: every value in it is the image of the value that
/// the inverse pass gives.
pub proof fn lemma_feistel_inv_round_trip(input: u64, key: u64, rounds: nat, width: u32)
    requires
        valid_width(width),
    ensures
        feistel_spec(feistel_inv_spec(input, key, rounds, width), key, rounds, width) == input
            & low_mask64(width),
{
    let h = width / 2;
    let l = split_high(input, h);
    let r = split_low(input, h);
    lemma_split_bounded(input, h);
    lemma_inverse_bounded(l, r, key, rounds, h);
    let (a, b) = inverse_rounds(l, r, key, rounds, h);
    lemma_split_combine(a, b, h);
    lemma_forward_undoes_inverse(l, r, key, rounds, h);
    lemma_combine_split(input, h);
}

/// Law: both passes ignore the bits of their input above `width`.
pub proof fn lemma_feistel_ignores_high_bits(input: u64, key: u64, rounds: nat, width: u32)
    requires
        valid_width(width),
    ensures
        feistel_spec(input & low_mask64(width), key, rounds, width) == feistel_spec(
            input,
            key,
            rounds,
            width,
        ),
        feistel_inv_spec(input & low_mask64(width), key, rounds, width) == feistel_inv_spec(
            input,
            key,
            rounds,
            width,
        ),
{
    lemma_combine_split(input, width / 2);
}

/// Law: the forward pass is injective on the `width`-bit domain.
pub proof fn lemma_feistel_injective(a: u64, b: u64, key: u64, rounds: nat, width: u32)
    requires
        valid_width(width),
        a <= low_mask64(width),
        b <= low_mask64(width),
        feistel_spec(a, key, rounds, width) == feistel_spec(b, key, rounds, width),
    ensures
        a == b,
{
    lemma_feistel_round_trip(a, key, rounds, width);
    lemma_feistel_round_trip(b, key, rounds, width);
    lemma_below_mask_is_masked(a, width);
    lemma_below_mask_is_masked(b, width);
}

/// A value under the mask of `width` bits is unchanged by it.
proof fn lemma_below_mask_is_masked(x: u64, width: u32)
    requires
        width <= 64,
        x <= low_mask64(width),
    ensures
        x & low_mask64(width) == x,
{
    assert(x <= low_mask64(width) ==> x & low_mask64(width) == x) by (bit_vector)
        requires
            width <= 64,
    ;
}

/// Obfuscates `id` under `key`. Inputs outside `[0, MAX_ID]` are reduced with
/// `& MAX_ID`; the function is total and never panics.
pub fn obfuscate(id: u64, key: u64) -> (code: u64)
    ensures
        code == obfuscate_spec(id, key),
        code <= MAX_ID,
        deobfuscate_spec(code, key) == id & MAX_ID,
{
    proof {
        lemma_low_mask64_40();
        lemma_obfuscate_round_trip(id, key);
    }
    feistel_n(id & MAX_ID, key, ROUNDS, WIDTH_BITS)
}

/// Recovers the original id from an obfuscated `code` under `key`. Inputs
/// outside `[0, MAX_ID]` are reduced with `& MAX_ID`; the function is total
/// and never panics.
pub fn deobfuscate(code: u64, key: u64) -> (id: u64)
    ensures
        id == deobfuscate_spec(code, key),
        id <= MAX_ID,
        obfuscate_spec(id, key) == code & MAX_ID,
{
    proof {
        lemma_low_mask64_40();
        lemma_deobfuscate_round_trip(code, key);
    }
    feistel_n_inv(code & MAX_ID, key, ROUNDS, WIDTH_BITS)
}

/// Law: `deobfuscate(obfuscate(id, key), key) == id & MAX_ID` for every id
/// and every key.
pub proof fn lemma_obfuscate_round_trip(id: u64, key: u64)
    ensures
        obfuscate_spec(id, key) <= MAX_ID,
        deobfuscate_spec(obfuscate_spec(id, key), key) == id & MAX_ID,
{
    lemma_low_mask64_40();
    let code = obfuscate_spec(id, key);
    lemma_feistel_round_trip(id & MAX_ID, key, ROUNDS as nat, WIDTH_BITS);
    lemma_and_idempotent(id, MAX_ID);
    lemma_feistel_bounded(id & MAX_ID, key, ROUNDS as nat, WIDTH_BITS);
    lemma_below_mask_is_masked(code, WIDTH_BITS);
}

/// Law: `obfuscate(deobfuscate(code, key), key) == code & MAX_ID` for every
/// code and every key, so every value of the domain is a code.
pub proof fn lemma_deobfuscate_round_trip(code: u64, key: u64)
    ensures
        deobfuscate_spec(code, key) <= MAX_ID,
        obfuscate_spec(deobfuscate_spec(code, key), key) == code & MAX_ID,
{
    lemma_low_mask64_40();
    let id = deobfuscate_spec(code, key);
    lemma_feistel_inv_round_trip(code & MAX_ID, key, ROUNDS as nat, WIDTH_BITS);
    lemma_and_idempotent(code, MAX_ID);
    lemma_feistel_inv_bounded(code & MAX_ID, key, ROUNDS as nat, WIDTH_BITS);
    lemma_below_mask_is_masked(id, WIDTH_BITS);
}

/// Law: an input outside the domain is reduced, not rejected:
/// `obfuscate(id, key) == obfuscate(id & MAX_ID, key)`, and the same for
/// `deobfuscate`.
pub proof fn lemma_out_of_domain_is_reduced(x: u64, key: u64)
    ensures
        obfuscate_spec(x, key) == obfuscate_spec(x & MAX_ID, key),
        deobfuscate_spec(x, key) == deobfuscate_spec(x & MAX_ID, key),
{
    lemma_and_idempotent(x, MAX_ID);
}

/// Law: `obfuscate` under a fixed key is a permutation of `[0, MAX_ID]`: two
/// ids of the domain with the same code are the same id.
pub proof fn lemma_obfuscate_injective(a: u64, b: u64, key: u64)
    requires
        a <= MAX_ID,
        b <= MAX_ID,
        obfuscate_spec(a, key) == obfuscate_spec(b, key),
    ensures
        a == b,
{
    lemma_obfuscate_round_trip(a, key);
    lemma_obfuscate_round_trip(b, key);
    lemma_low_mask64_40();
    lemma_below_mask_is_masked(a, WIDTH_BITS);
    lemma_below_mask_is_masked(b, WIDTH_BITS);
}

/// The forward pass stays in the `width`-bit domain.
proof fn lemma_feistel_bounded(input: u64, key: u64, rounds: nat, width: u32)
    requires
        valid_width(width),
    ensures
        feistel_spec(input, key, rounds, width) <= low_mask64(width),
{
    let h = width / 2;
    lemma_split_bounded(input, h);
    lemma_forward_bounded(split_high(input, h), split_low(input, h), key, rounds, h);
    let (a, b) = forward_rounds(split_high(input, h), split_low(input, h), key, rounds, h);
    lemma_split_combine(a, b, h);
}

/// The inverse pass stays in the `width`-bit domain.
proof fn lemma_feistel_inv_bounded(input: u64, key: u64, rounds: nat, width: u32)
    requires
        valid_width(width),
    ensures
        feistel_inv_spec(input, key, rounds, width) <= low_mask64(width),
{
    let h = width / 2;
    lemma_split_bounded(input, h);
    lemma_inverse_bounded(split_high(input, h), split_low(input, h), key, rounds, h);
    let (a, b) = inverse_rounds(split_high(input, h), split_low(input, h), key, rounds, h);
    lemma_split_combine(a, b, h);
}

/// Law: complementing the key does not give the same schedule: the subkeys
/// that `key` and `!key` derive for a round always add up to `0xFFFF_FFFE`
/// modulo 2^32, so they are equal only when the subkey of `key` is
/// `0x7FFF_FFFF` or `0xFFFF_FFFF`.
pub proof fn lemma_subkey_complement(key: u64, round: nat)
    ensures
        (subkey_spec(key, round) as int + subkey_spec(!key, round) as int) % 0x1_0000_0000
            == 0xFFFF_FFFE,
        subkey_spec(!key, round) == subkey_spec(key, round) ==> (subkey_spec(key, round)
            == 0x7FFF_FFFF || subkey_spec(key, round) == 0xFFFF_FFFF),
{
    lemma_rotl64_complement(
        key,
        (((round % 64) * 7 + 1) % 64) as u32,
        ((GOLDEN as nat * ((round + 1) % 0x1_0000_0000_0000_0000)) % 0x1_0000_0000_0000_0000) as u64,
    );
    lemma_fold_of_complement(schedule_word(key, round));
}

/// Law: the key schedule is the SPEC formula for every key and every round:
/// with `x = rotl64(key, (7 * round + 1) mod 64) ^ (GOLDEN * (round + 1) mod
/// 2^64)`, the subkey is `(low32(x) + high32(x)) mod 2^32`.
pub proof fn lemma_subkey_is_the_schedule_formula(key: u64, round: nat)
    ensures
        ({
            let x = rotl64(key, ((7 * round + 1) % 64) as u32) ^ ((GOLDEN as nat * (round + 1))
                % 0x1_0000_0000_0000_0000) as u64;
            subkey_spec(key, round) as int == (x % 0x1_0000_0000 + x / 0x1_0000_0000)
                % 0x1_0000_0000
        }),
{
    let x = schedule_word(key, round);
    lemma_halves(x);
    assert(((round % 64) * 7 + 1) % 64 == (7 * round + 1) % 64) by (nonlinear_arith);
    assert((GOLDEN as nat * ((round + 1) % 0x1_0000_0000_0000_0000)) % 0x1_0000_0000_0000_0000
        == (GOLDEN as nat * (round + 1)) % 0x1_0000_0000_0000_0000) by {
        vstd::arithmetic::div_mod::lemma_mul_mod_noop_right(
            GOLDEN as int,
            (round + 1) as int,
            0x1_0000_0000_0000_0000,
        );
    }
}

/// Law: the round function is the ARX formula for every key, round and half
/// width up to 32: with every add modulo 2^32 and every rotation over 32
/// bits, `x0 = r + subkey`, `x1 = x0 ^ rotl32(x0, 7)`,
/// `x2 = x1 + rotl32(x1, 13)`, `x3 = x2 ^ rotl32(x2, 17)`, and the result is
/// the low `half` bits of `x3`.
pub proof fn lemma_round_is_the_arx_formula(r: u32, key: u64, round: nat, half: u32)
    requires
        half <= 32,
    ensures
        ({
            let x0 = ((r as int + subkey_spec(key, round) as int) % 0x1_0000_0000) as u32;
            let x1 = x0 ^ ((x0 << 7u32) | (x0 >> 25u32));
            let x2 = ((x1 as int + ((x1 << 13u32) | (x1 >> 19u32)) as int) % 0x1_0000_0000) as u32;
            let x3 = x2 ^ ((x2 << 17u32) | (x2 >> 15u32));
            round_spec(r, key, round, half) as u64 == (x3 as u64) & (((1u64 << half) - 1u64) as u64)
        }),
{
    let x0 = r.wrapping_add(subkey_spec(key, round));
    let x1 = x0 ^ rotl32(x0, 7);
    let x2 = x1.wrapping_add(rotl32(x1, 13));
    let x3 = x2 ^ rotl32(x2, 17);
    lemma_low_mask32_keeps_low_bits(x3, half);
}

/// Law: the round function masks to the half width only at the very end: at
/// every half width up to 32 it is the full 32-bit round cut to `half` bits.
pub proof fn lemma_round_masks_only_at_the_end(r: u32, key: u64, round: nat, half: u32)
    requires
        half <= 32,
    ensures
        round_spec(r, key, round, half) == round_spec(r, key, round, 32) & low_mask32(half),
{
    let x0 = r.wrapping_add(subkey_spec(key, round));
    let x1 = x0 ^ rotl32(x0, 7);
    let x2 = x1.wrapping_add(rotl32(x1, 13));
    let x3 = x2 ^ rotl32(x2, 17);
    lemma_low_mask32_keeps_low_bits(x3, half);
}

/// Law: the round function depends on the key only through the round
/// subkey: two keys with the same subkey give the same round.
pub proof fn lemma_round_depends_on_the_subkey_only(
    r: u32,
    key1: u64,
    key2: u64,
    round: nat,
    half: u32,
)
    requires
        subkey_spec(key1, round) == subkey_spec(key2, round),
    ensures
        round_spec(r, key1, round, half) == round_spec(r, key2, round, half),
{
}

/// Keys with the same subkeys in rounds `0..n` give the same passes over `n`
/// rounds.
proof fn lemma_rounds_same_subkeys(l: u32, r: u32, key1: u64, key2: u64, n: nat, half: u32)
    requires
        forall|i: nat| i < n ==> #[trigger] subkey_spec(key1, i) == subkey_spec(key2, i),
    ensures
        forward_rounds(l, r, key1, n, half) == forward_rounds(l, r, key2, n, half),
        inverse_rounds(l, r, key1, n, half) == inverse_rounds(l, r, key2, n, half),
    decreases n,
{
    if n > 0 {
        let m = (n - 1) as nat;
        assert(subkey_spec(key1, m) == subkey_spec(key2, m));
        lemma_rounds_same_subkeys(l, r, key1, key2, m, half);
        lemma_rounds_same_subkeys(r ^ round_spec(l, key1, m, half), l, key1, key2, m, half);
    }
}

/// Law: the permutation depends on the key only through the round subkeys:
/// two keys whose subkeys agree in every round give the same code for every
/// id and the same id for every code.
pub proof fn lemma_equal_subkeys_give_equal_permutations(x: u64, key1: u64, key2: u64)
    requires
        forall|i: nat| i < ROUNDS ==> #[trigger] subkey_spec(key1, i) == subkey_spec(key2, i),
    ensures
        obfuscate_spec(x, key1) == obfuscate_spec(x, key2),
        deobfuscate_spec(x, key1) == deobfuscate_spec(x, key2),
{
    let h = WIDTH_BITS / 2;
    lemma_rounds_same_subkeys(
        split_high(x & MAX_ID, h),
        split_low(x & MAX_ID, h),
        key1,
        key2,
        ROUNDS as nat,
        h,
    );
}

/// Law: the forward pass over zero rounds keeps the low `width` bits, and
/// each further round `n` maps the halves `(l, r)` of the pass over `n`
/// rounds to `(r, l ^ round(r, key, n))`.
pub proof fn lemma_feistel_one_more_round(input: u64, key: u64, n: nat, width: u32)
    requires
        valid_width(width),
    ensures
        feistel_spec(input, key, 0, width) == input & low_mask64(width),
        ({
            let h = width / 2;
            let y = feistel_spec(input, key, n, width);
            let l = split_high(y, h);
            let r = split_low(y, h);
            feistel_spec(input, key, n + 1, width) == combine(r, l ^ round_spec(r, key, n, h), h)
        }),
{
    let h = width / 2;
    lemma_combine_split(input, h);
    lemma_split_bounded(input, h);
    lemma_forward_bounded(split_high(input, h), split_low(input, h), key, n, h);
    let (a, b) = forward_rounds(split_high(input, h), split_low(input, h), key, n, h);
    lemma_split_combine(a, b, h);
}

/// Law: the inverse pass over zero rounds keeps the low `width` bits, and
/// over `n + 1` rounds it first undoes round `n`, mapping the halves `(l, r)`
/// of its input to `(r ^ round(l, key, n), l)`, then runs over `n` rounds.
pub proof fn lemma_feistel_inv_one_more_round(input: u64, key: u64, n: nat, width: u32)
    requires
        valid_width(width),
    ensures
        feistel_inv_spec(input, key, 0, width) == input & low_mask64(width),
        ({
            let h = width / 2;
            let l = split_high(input, h);
            let r = split_low(input, h);
            feistel_inv_spec(input, key, n + 1, width) == feistel_inv_spec(
                combine(r ^ round_spec(l, key, n, h), l, h),
                key,
                n,
                width,
            )
        }),
{
    let h = width / 2;
    lemma_combine_split(input, h);
    lemma_split_bounded(input, h);
    let l = split_high(input, h);
    let r = split_low(input, h);
    let f = round_spec(l, key, n, h);
    lemma_round_bounded(l, key, n, h);
    lemma_xor_under_mask(r, f, h);
    lemma_split_combine(r ^ f, l, h);
}

} // verus!

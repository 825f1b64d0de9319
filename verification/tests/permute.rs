use std::collections::HashSet;

use arxid::permute::{feistel_n, feistel_n_inv, subkey, GOLDEN};
use arxid::{deobfuscate, obfuscate, MAX_ID, ROUNDS};

#[test]
fn round_trip_edges() {
    let key = 0x9E37_79B9_7F4A_7C15;
    for id in [0u64, 1, 2, 42, 1000, MAX_ID / 2, MAX_ID - 1, MAX_ID] {
        let code = obfuscate(id, key);
        assert!(code <= MAX_ID, "code out of range: {code}");
        assert_eq!(deobfuscate(code, key), id, "round-trip failed for id={id}");
    }
}

#[test]
fn out_of_domain_input_is_reduced_not_rejected() {
    let key = 3;
    assert_eq!(obfuscate(u64::MAX, key), obfuscate(MAX_ID, key));
    assert_eq!(deobfuscate(obfuscate(MAX_ID + 1, key), key), 0);
}

#[test]
fn bijectivity_on_small_width() {
    let key = 0xDEAD_BEEF_CAFE_BABE;
    let n = 1u64 << 20;
    let mut seen = vec![false; n as usize];
    for id in 0..n {
        let c = feistel_n(id, key, ROUNDS, 20);
        assert!(c < n);
        assert!(!seen[c as usize], "collision at id={id} -> {c}");
        seen[c as usize] = true;
    }
}

#[test]
fn distinct_keys_give_distinct_outputs() {
    let ids = [0u64, 1, 42, 12345, MAX_ID];
    let keys = [0u64, 1, GOLDEN, 0x0123_4567_89AB_CDEF];
    for id in ids {
        let mut outs: Vec<u64> = keys.map(|k| obfuscate(id, k)).to_vec();
        outs.sort_unstable();
        let before = outs.len();
        outs.dedup();
        assert_eq!(outs.len(), before, "keys collided on id={id}");
    }
}

#[test]
fn sequential_ids_are_not_enumerable() {
    let key = 0x0123_4567_89AB_CDEF;
    let a = obfuscate(100, key);
    let b = obfuscate(101, key);
    assert!(
        a.abs_diff(b) > 1,
        "neighboring codes are sequential: {a} {b}"
    );
}

/// The subkey fold is an add, so `key` and `!key` are not the same
/// permutation: their subkeys are tied by `subkey(!k) = 0xFFFF_FFFE - subkey(k)`
/// (wrapping), and the codes differ.
#[test]
fn complement_keys_give_complementary_subkeys() {
    for key in [0u64, 1, GOLDEN, 0xD1B5_4A32_D192_ED03, 1 << 63] {
        for round in 0..ROUNDS {
            assert_eq!(subkey(!key, round), 0xFFFF_FFFEu32.wrapping_sub(subkey(key, round)));
        }
        let differ = [0u64, 1, 42, 12345, MAX_ID]
            .iter()
            .any(|&id| obfuscate(id, key) != obfuscate(id, !key));
        assert!(differ, "key {key} and its complement gave the same codes");
    }
}

#[test]
fn subkey_matches_spec_section_4() {
    // key = 1, round = 0:
    //   rotl64(1, 1) = 2; GOLDEN * 1 = 0x9E3779B97F4A7C15
    //   x = 2 ^ 0x9E3779B97F4A7C15 = 0x9E3779B97F4A7C17
    //   low32(x) + high32(x) = 0x7F4A7C17 + 0x9E3779B9 = 0x1_1D81_F5D0 -> 0x1D81_F5D0
    assert_eq!(subkey(1, 0), 0x1D81_F5D0);
}

#[test]
fn injective_on_a_sampled_range() {
    let key = 0xD1B5_4A32_D192_ED03;
    let mut seen = HashSet::with_capacity(200_000);
    for id in 0..200_000u64 {
        let code = obfuscate(id, key);
        assert!(code <= MAX_ID);
        assert!(seen.insert(code), "collision at id={id} -> {code}");
    }
}

#[test]
fn injective_across_the_top_of_the_domain() {
    let key = 1;
    let mut seen = HashSet::with_capacity(100_000);
    for id in (MAX_ID - 99_999)..=MAX_ID {
        assert!(seen.insert(obfuscate(id, key)), "collision at id={id}");
    }
}

#[test]
fn feistel_inverse_undoes_forward_at_every_width() {
    let key = 0xDEAD_BEEF;
    let x = feistel_n(12345, key, 4, 40);
    assert_eq!(feistel_n_inv(x, key, 4, 40), 12345);
    for width in [2u32, 8, 20, 40, 62] {
        let mask = (1u64 << width) - 1;
        for id in [0u64, 1, 7, 12345, u64::MAX] {
            let c = feistel_n(id, key, ROUNDS, width);
            assert!(c <= mask);
            assert_eq!(feistel_n_inv(c, key, ROUNDS, width), id & mask);
            assert_eq!(feistel_n(feistel_n_inv(id, key, ROUNDS, width), key, ROUNDS, width), id & mask);
        }
    }
}

#[test]
fn small_ids_round_trip_under_key_one() {
    let key = 1;
    for id in 0..64u64 {
        assert_eq!(feistel_n_inv(feistel_n(id, key, 4, 40), key, 4, 40), id);
    }
}

#[test]
fn zero_rounds_is_the_identity_on_the_domain() {
    for id in [0u64, 5, MAX_ID, u64::MAX] {
        assert_eq!(feistel_n(id, 99, 0, 40), id & MAX_ID);
        assert_eq!(feistel_n_inv(id, 99, 0, 40), id & MAX_ID);
    }
}

#[test]
fn every_code_of_the_domain_has_an_id() {
    let key = 42;
    for code in [0u64, 1, 999, MAX_ID - 1, MAX_ID] {
        let id = deobfuscate(code, key);
        assert!(id <= MAX_ID);
        assert_eq!(obfuscate(id, key), code);
    }
}

#[test]
fn deobfuscate_reduces_out_of_domain_codes() {
    let key = 7;
    assert_eq!(deobfuscate(u64::MAX, key), deobfuscate(MAX_ID, key));
    assert_eq!(obfuscate(deobfuscate(MAX_ID + 5, key), key), 4);
}

#[test]
fn subkey_values_for_the_first_rounds() {
    assert_eq!(subkey(0, 0), 0x1D81_F5CE);
    assert_eq!(subkey(1u64 << 63, 0), 0x1D81_F5CD);
    assert_eq!(subkey(u64::MAX, 0), 0xE27E_0A30);
    assert_eq!(subkey(0, 1), 0x3B03_EB9C);
    // x = rotl64(key, r*7+1) ^ GOLDEN*(r+1); subkey = low32(x) + high32(x), wrapping.
    let x2 = (1u64 << 15) ^ GOLDEN.wrapping_mul(3);
    assert_eq!(subkey(1, 2), (x2 as u32).wrapping_add((x2 >> 32) as u32));
}

#[test]
fn full_width_with_no_rounds_is_the_identity() {
    for x in [0u64, 1, 0xDEAD_BEEF_CAFE_BABE, u64::MAX] {
        assert_eq!(feistel_n(x, 5, 0, 64), x);
        assert_eq!(feistel_n_inv(x, 5, 0, 64), x);
    }
}

#[test]
fn consecutive_ids_carry_no_order() {
    let key = 0x0123_4567_89AB_CDEF;
    let codes: Vec<u64> = (100..200).map(|id| obfuscate(id, key)).collect();
    let ascending = codes.windows(2).filter(|w| w[0] < w[1]).count();
    assert!((20..80).contains(&ascending));
}

#[test]
fn known_codes_under_several_keys() {
    let cases: [(u64, u64, u64); 12] = [
        (0, 0, 754_139_513_646),
        (0, 1, 106_331_622_490),
        (0, MAX_ID, 279_241_838_827),
        (1, 0, 452_079_438_274),
        (1, 1001, 1_096_837_359_483),
        (1, MAX_ID - 1, 368_762_045_069),
        (GOLDEN, 0, 438_338_984_353),
        (GOLDEN, 1001, 272_672_349_820),
        (GOLDEN, MAX_ID / 2, 359_557_284_524),
        (u64::MAX, 2, 902_967_005_347),
        (u64::MAX, MAX_ID, 343_415_727_022),
        (0x0123_4567_89AB_CDEF, 1001, 992_902_781_142),
    ];
    for (key, id, code) in cases {
        assert_eq!(obfuscate(id, key), code, "obfuscate({id}) under key {key}");
        assert_eq!(deobfuscate(code, key), id, "deobfuscate({code}) under key {key}");
    }
}

#[test]
fn the_consecutive_run_under_the_golden_key_is_not_monotone() {
    let run: Vec<u64> = (100..=110u64).map(|id| obfuscate(id, GOLDEN)).collect();
    assert_eq!(
        run,
        vec![
            184_929_017_734,
            364_683_885_684,
            1_063_265_231_039,
            972_855_476_523,
            633_762_194_750,
            396_579_692_347,
            643_008_482_081,
            190_804_352_438,
            545_699_081_423,
            970_254_635_657,
            310_979_032_716,
        ]
    );
    let ascending = run.windows(2).filter(|w| w[0] < w[1]).count();
    assert!(ascending > 0 && ascending < run.len() - 1);
}

#[test]
fn full_width_passes_run_rounds() {
    let key = 0xDEAD_BEEF;
    assert_eq!(feistel_n(12345, key, 6, 64), 11_703_255_376_765_160_740);
    assert_eq!(feistel_n(12345, key, 3, 64), 14_020_740_089_511_326_256);
    for x in [0u64, 12345, u64::MAX] {
        assert_eq!(feistel_n_inv(feistel_n(x, key, 6, 64), key, 6, 64), x);
        assert_eq!(feistel_n(feistel_n_inv(x, key, 6, 64), key, 6, 64), x);
    }
}

#[test]
fn large_round_indices_do_not_panic() {
    // The rotation amount is reduced modulo 64, and the multiplier wraps.
    for r in [613_566_757usize, 1 << 40, usize::MAX] {
        let rot = (((r % 64) as u32) * 7 + 1) % 64;
        let x = 3u64.rotate_left(rot) ^ GOLDEN.wrapping_mul((r as u64).wrapping_add(1));
        assert_eq!(subkey(3, r), (x as u32).wrapping_add((x >> 32) as u32));
    }
}

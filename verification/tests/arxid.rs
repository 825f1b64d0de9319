use arxid::{deobfuscate, obfuscate, Arxid, WasmArxid, CODE_LEN, MAX_ID, SPEC_VERSION};

#[test]
fn struct_and_free_functions_agree() {
    let key = 0x0123_4567_89AB_CDEF;
    let a = Arxid::new(key);
    for id in [0u64, 1, 42, 12345, MAX_ID] {
        assert_eq!(a.obfuscate(id), obfuscate(id, key));
        assert_eq!(a.deobfuscate(id), deobfuscate(id, key));
    }
}

#[test]
fn debug_does_not_leak_the_key() {
    let rendered = Arxid::new(0xDEAD_BEEF).redacted_debug();
    assert!(!rendered.contains("dead"), "{rendered}");
    assert!(!rendered.contains("3735928559"), "{rendered}");
    assert!(rendered.contains("redacted"), "{rendered}");
}

#[test]
fn string_layer_round_trips() {
    let a = Arxid::new(7);
    for id in [0u64, 1, 42, MAX_ID] {
        let s = a.obfuscate_str(id);
        assert_eq!(s.len(), CODE_LEN);
        assert_eq!(a.deobfuscate_str(&s), Some(id));
    }
}

#[test]
fn key_bytes_are_read_big_endian() {
    let from_bytes = Arxid::from_key_bytes([0x9E, 0x37, 0x79, 0xB9, 0x7F, 0x4A, 0x7C, 0x15]);
    assert!(from_bytes == Arxid::new(0x9E37_79B9_7F4A_7C15));
    let from_bytes = Arxid::from_key_bytes([0x01, 0x23, 0x45, 0x67, 0x89, 0xAB, 0xCD, 0xEF]);
    assert!(from_bytes == Arxid::new(0x0123_4567_89AB_CDEF));
    assert!(Arxid::from_key_bytes([0; 8]) == Arxid::new(0));
    assert!(Arxid::from_key_bytes([0xFF; 8]) == Arxid::new(u64::MAX));
    assert!(Arxid::from_key_bytes([0, 0, 0, 0, 0, 0, 0, 1]) != Arxid::new(1 << 56));
}

#[test]
fn zero_key_round_trips() {
    let a = Arxid::new(0);
    assert_eq!(a.deobfuscate(a.obfuscate(0)), 0);
}

#[test]
fn struct_round_trips_and_stays_in_the_domain() {
    let a = Arxid::new(0x9E37_79B9_7F4A_7C15);
    let code = a.obfuscate(1001);
    assert_ne!(code, 1001);
    assert_eq!(a.deobfuscate(code), 1001);
    assert!(Arxid::new(42).obfuscate(7) <= MAX_ID);
    assert_eq!(Arxid::new(42).deobfuscate(Arxid::new(42).obfuscate(999)), 999);
}

#[test]
fn string_layer_rejects_non_codes() {
    let a = Arxid::new(1);
    assert_eq!(a.deobfuscate_str("not a code"), None);
    assert_eq!(a.deobfuscate_str("zzzzzzz"), None);
    assert_eq!(a.deobfuscate_str("!!!!!!!"), None);
}

#[test]
fn string_layer_reduces_out_of_domain_ids() {
    let a = Arxid::new(11);
    let s = a.obfuscate_str(MAX_ID + 3);
    assert_eq!(s, a.obfuscate_str(2));
    assert_eq!(a.deobfuscate_str(&s), Some(2));
}

#[test]
fn string_of_an_id_is_the_base62_of_its_code() {
    let a = Arxid::new(5);
    assert_eq!(a.obfuscate_str(77), arxid::to_base62(a.obfuscate(77)));
}

#[test]
fn clones_are_equal() {
    let a = Arxid::new(99);
    let b = a.clone();
    assert!(a == b);
    assert_eq!(a.obfuscate(3), b.obfuscate(3));
}

#[test]
fn wasm_surface_matches_the_struct() {
    let w = WasmArxid::new(0xABCD);
    let a = Arxid::new(0xABCD);
    for id in [0u64, 9, MAX_ID] {
        assert_eq!(w.obfuscate(id), a.obfuscate(id));
        assert_eq!(w.deobfuscate(id), a.deobfuscate(id));
        assert_eq!(w.obfuscate_str(id), a.obfuscate_str(id));
        assert_eq!(w.deobfuscate_str(&w.obfuscate_str(id)), Some(id));
    }
    assert_eq!(w.deobfuscate_str("abc"), None);
}

#[test]
fn spec_version_is_two() {
    assert_eq!(SPEC_VERSION, 2);
}

#[test]
fn documented_codes_under_the_golden_key() {
    let a = Arxid::new(0x9E37_79B9_7F4A_7C15);
    assert_eq!(a.obfuscate_str(1000), "BmgnvEe");
    assert_eq!(a.obfuscate_str(1001), "4ndJOI8");
    assert_eq!(a.obfuscate_str(1002), "FgxNwC0");
    assert_eq!(a.deobfuscate_str("4ndJOI8"), Some(1001));
}

#[test]
fn known_strings_under_other_keys() {
    assert_eq!(Arxid::new(0).obfuscate_str(0), "DHAyXmg");
    assert_eq!(Arxid::new(1).obfuscate_str(MAX_ID), "HVotLKh");
    assert_eq!(Arxid::new(u64::MAX).obfuscate_str(1001), "BysnIaS");
    assert_eq!(Arxid::new(0x0123_4567_89AB_CDEF).obfuscate_str(MAX_ID / 2), "0NYm6WF");
    assert_eq!(Arxid::new(0x0123_4567_89AB_CDEF).deobfuscate_str("0NYm6WF"), Some(MAX_ID / 2));
}

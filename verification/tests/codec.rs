use arxid::{from_base62, to_base62, ALPHABET, CODE_LEN, MAX_ID};

#[test]
fn round_trip_base62() {
    for n in [0u64, 1, 61, 62, 3843, 1_000_000, MAX_ID] {
        let s = to_base62(n);
        assert_eq!(s.len(), CODE_LEN);
        assert_eq!(from_base62(&s), Some(n));
    }
}

#[test]
fn alphabet_order_is_normative() {
    assert_eq!(&ALPHABET[..10], b"0123456789");
    assert_eq!(ALPHABET[10], b'A');
    assert_eq!(ALPHABET[35], b'Z');
    assert_eq!(ALPHABET[36], b'a');
    assert_eq!(ALPHABET[61], b'z');
}

#[test]
fn rejects_invalid_char() {
    assert_eq!(from_base62("!!!!!!!"), None);
    assert_eq!(from_base62("00000 0"), None);
}

#[test]
fn rejects_wrong_size() {
    assert_eq!(from_base62(""), None);
    assert_eq!(from_base62("abc"), None);
    assert_eq!(from_base62("aaaaaaaaaaaa"), None);
}

#[test]
fn rejects_out_of_range() {
    assert_eq!(from_base62("zzzzzzz"), None);
    assert_eq!(from_base62(&to_base62(MAX_ID)), Some(MAX_ID));
}

#[test]
fn encodes_known_values() {
    assert_eq!(to_base62(0), "0000000");
    assert_eq!(to_base62(1), "0000001");
    assert_eq!(to_base62(61), "000000z");
    assert_eq!(to_base62(62), "0000010");
    assert_eq!(to_base62(3843), "00000zz");
    assert_eq!(to_base62(MAX_ID), "JMAIjoV");
}

#[test]
fn decodes_known_values() {
    assert_eq!(from_base62("0000000"), Some(0));
    assert_eq!(from_base62("0000010"), Some(62));
    assert_eq!(from_base62("00000zz"), Some(3843));
    assert_eq!(from_base62("JMAIjoV"), Some(MAX_ID));
    // One above MAX_ID.
    assert_eq!(from_base62("JMAIjoW"), None);
}

#[test]
fn every_alphabet_character_decodes_to_its_index() {
    for (i, c) in ALPHABET.iter().enumerate() {
        let s = format!("000000{}", *c as char);
        assert_eq!(from_base62(&s), Some(i as u64));
    }
}

#[test]
fn truncates_values_above_seven_digits() {
    // 62^7 has eight digits; only the low seven are written.
    assert_eq!(to_base62(3_521_614_606_208), "0000000");
    assert_eq!(to_base62(3_521_614_606_208 + 5), "0000005");
}

#[test]
fn rejects_multibyte_text_of_the_right_character_count() {
    // Seven characters, but more than seven bytes.
    assert_eq!(from_base62("ééééééé"), None);
}

#[test]
fn canonical_codes_round_trip_back_to_the_same_text() {
    for s in ["0000000", "Hz09aZ1", "JMAIjoV", "00000zz"] {
        let n = from_base62(s).unwrap();
        assert_eq!(to_base62(n), s);
    }
}

#[test]
fn codes_sort_like_their_values() {
    let values = [0u64, 1, 61, 62, 3843, 1_000_000, MAX_ID / 2, MAX_ID - 1, MAX_ID];
    for w in values.windows(2) {
        assert!(to_base62(w[0]).as_bytes() < to_base62(w[1]).as_bytes());
    }
}

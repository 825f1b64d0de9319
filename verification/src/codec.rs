//! Fixed-length base62 string encoding for 40-bit values.
//!
//! This layer is independent of the permutation: it serializes a value in
//! `[0, MAX_ID]` as exactly 7 characters and back.

use vstd::prelude::*;
use vstd::utf8::{
    decode_utf8, encode_utf8, encode_utf8_decode_utf8, encode_utf8_valid_utf8, is_ascii_chars,
    is_ascii_chars_encode_utf8, valid_utf8,
};

use vstd::string::StringSliceAdditionalSpecFns;

use crate::permute::MAX_ID;

verus! {

/// The base62 alphabet, in normative order: `0-9`, then `A-Z`, then `a-z`.
pub const ALPHABET: [u8; 62] = [
    48u8, 49, 50, 51, 52, 53, 54, 55, 56, 57,
    65, 66, 67, 68, 69, 70, 71, 72, 73, 74,
    75, 76, 77, 78, 79, 80, 81, 82, 83, 84,
    85, 86, 87, 88, 89, 90, 97, 98, 99, 100,
    101, 102, 103, 104, 105, 106, 107, 108, 109, 110,
    111, 112, 113, 114, 115, 116, 117, 118, 119, 120,
    121, 122,
];

/// Length of an encoded code, in characters.
pub const CODE_LEN: usize = 7;

/// The alphabet character of the digit `d` (for `d < 62`).
pub open spec fn digit_char(d: nat) -> u8 {
    if d < 10 {
        (48 + d) as u8
    } else if d < 36 {
        (55 + d) as u8
    } else {
        (61 + d) as u8
    }
}

/// The digit that an alphabet character stands for, or `None` for a byte
/// outside the alphabet.
pub open spec fn char_digit(c: u8) -> Option<nat> {
    if 48 <= c <= 57 {
        Some((c - 48) as nat)
    } else if 65 <= c <= 90 {
        Some((c - 55) as nat)
    } else if 97 <= c <= 122 {
        Some((c - 61) as nat)
    } else {
        None
    }
}

/// The lowest `k` base62 digits of `n`, most significant first, as alphabet
/// characters (left-padded with `'0'`).
pub open spec fn base62_encode(n: nat, k: nat) -> Seq<u8>
    decreases k,
{
    if k == 0 {
        seq![]
    } else {
        base62_encode(n / 62, (k - 1) as nat).push(digit_char(n % 62))
    }
}

/// The characters of a sequence of ASCII bytes.
pub open spec fn ascii_chars(bytes: Seq<u8>) -> Seq<char> {
    Seq::new(bytes.len(), |i: int| bytes[i] as char)
}

/// Every byte of `s` is in the alphabet.
pub open spec fn all_digits(s: Seq<u8>) -> bool {
    forall|i: int| 0 <= i < s.len() ==> (#[trigger] char_digit(s[i])) is Some
}

/// The big-endian base62 value of a sequence of alphabet characters.
pub open spec fn base62_value(s: Seq<u8>) -> nat
    decreases s.len(),
{
    if s.len() == 0 {
        0
    } else {
        base62_value(s.drop_last()) * 62 + match char_digit(s.last()) {
            Some(d) => d,
            None => 0,
        }
    }
}

/// What `from_base62` gives for a string with UTF-8 bytes `s`: the value when
/// `s` is exactly `CODE_LEN` alphabet characters whose value is at most
/// `MAX_ID`, and `None` otherwise.
pub open spec fn base62_decode(s: Seq<u8>) -> Option<u64> {
    if s.len() == CODE_LEN && all_digits(s) && base62_value(s) <= MAX_ID {
        Some(base62_value(s) as u64)
    } else {
        None
    }
}

/// `62^k`.
pub open spec fn pow62(k: nat) -> nat
    decreases k,
{
    if k == 0 {
        1
    } else {
        62 * pow62((k - 1) as nat)
    }
}

/// The table agrees with `digit_char`.
proof fn lemma_alphabet()
    ensures
        forall|d: int| 0 <= d < 62 ==> #[trigger] ALPHABET@[d] == digit_char(d as nat),
{
    assert forall|d: int| 0 <= d < 62 implies #[trigger] ALPHABET@[d] == digit_char(d as nat) by {
        if d < 31 {
            if d < 15 {
                if d < 8 {
                } else {
                }
            } else {
                if d < 23 {
                } else {
                }
            }
        } else {
            if d < 46 {
                if d < 38 {
                } else {
                }
            } else {
                if d < 54 {
                } else {
                }
            }
        }
    }
}

/// `digit_char` and `char_digit` undo each other.
proof fn lemma_digit_char(d: nat)
    requires
        d < 62,
    ensures
        char_digit(digit_char(d)) == Some(d),
{
}

proof fn lemma_char_digit(c: u8)
    requires
        char_digit(c) is Some,
    ensures
        char_digit(c).unwrap() < 62,
        digit_char(char_digit(c).unwrap()) == c,
{
}

proof fn lemma_pow62_values()
    ensures
        pow62(7) == 3_521_614_606_208,
        forall|k: nat| k <= 7 ==> #[trigger] pow62(k) <= pow62(7),
{
    reveal_with_fuel(pow62, 8);
    assert forall|k: nat| k <= 7 implies #[trigger] pow62(k) <= pow62(7) by {
        reveal_with_fuel(pow62, 8);
    }
}

/// An encoding has `k` characters, all in the alphabet.
proof fn lemma_encode_shape(n: nat, k: nat)
    ensures
        base62_encode(n, k).len() == k,
        all_digits(base62_encode(n, k)),
    decreases k,
{
    if k > 0 {
        lemma_encode_shape(n / 62, (k - 1) as nat);
        lemma_digit_char(n % 62);
        let e = base62_encode(n, k);
        assert forall|i: int| 0 <= i < e.len() implies (#[trigger] char_digit(e[i])) is Some by {
            if i < k - 1 {
                assert(e[i] == base62_encode(n / 62, (k - 1) as nat)[i]);
            }
        }
    }
}

/// The encoding of zero is all `'0'`.
proof fn lemma_encode_zero(k: nat)
    ensures
        base62_encode(0, k) =~= Seq::new(k, |i: int| 48u8),
    decreases k,
{
    if k > 0 {
        lemma_encode_zero((k - 1) as nat);
    }
}

/// A value below `62^k` is the value of its `k`-digit encoding.
proof fn lemma_value_of_encode(n: nat, k: nat)
    requires
        n < pow62(k),
    ensures
        base62_value(base62_encode(n, k)) == n,
    decreases k,
{
    if k > 0 {
        let e = base62_encode(n, k);
        assert(e.drop_last() =~= base62_encode(n / 62, (k - 1) as nat));
        lemma_value_of_encode(n / 62, (k - 1) as nat);
        lemma_digit_char(n % 62);
    }
}

/// Dropping the last character of alphabet characters leaves alphabet
/// characters, and the last one is in the alphabet.
proof fn lemma_all_digits_drop_last(s: Seq<u8>)
    requires
        all_digits(s),
        s.len() > 0,
    ensures
        all_digits(s.drop_last()),
        char_digit(s.last()) is Some,
{
    let t = s.drop_last();
    assert forall|i: int| 0 <= i < t.len() implies (#[trigger] char_digit(t[i])) is Some by {
        assert(char_digit(s[i]) is Some);
    }
    assert(char_digit(s[s.len() - 1]) is Some);
}

/// Encoding the value of `k` alphabet characters over `k` digits gives them
/// back.
proof fn lemma_encode_of_value(s: Seq<u8>)
    requires
        all_digits(s),
    ensures
        base62_encode(base62_value(s), s.len()) == s,
    decreases s.len(),
{
    if s.len() > 0 {
        let t = s.drop_last();
        lemma_all_digits_drop_last(s);
        lemma_encode_of_value(t);
        lemma_char_digit(s.last());
        let v = base62_value(s);
        let d = char_digit(s.last()).unwrap();
        assert(v / 62 == base62_value(t) && v % 62 == d);
        assert(s =~= t.push(s.last()));
    }
}

/// `a` comes strictly before `b` in lexicographic byte order (for sequences of
/// equal length).
pub open spec fn bytes_less(a: Seq<u8>, b: Seq<u8>) -> bool {
    exists|i: int|
        0 <= i < a.len() && i < b.len() && #[trigger] a.take(i) == b.take(i) && a[i] < b[i]
}

/// The alphabet is in ascending byte order.
proof fn lemma_digit_char_increasing(d: nat, e: nat)
    requires
        d < e < 62,
    ensures
        digit_char(d) < digit_char(e),
{
}

/// Encodings over `k` digits keep the order of the values below `62^k`.
proof fn lemma_encode_ordered(n: nat, m: nat, k: nat)
    requires
        n < m < pow62(k),
    ensures
        bytes_less(base62_encode(n, k), base62_encode(m, k)),
    decreases k,
{
    let en = base62_encode(n, k);
    let em = base62_encode(m, k);
    let km = (k - 1) as nat;
    let a = base62_encode(n / 62, km);
    let b = base62_encode(m / 62, km);
    lemma_encode_shape(n / 62, km);
    lemma_encode_shape(m / 62, km);
    if n / 62 == m / 62 {
        lemma_digit_char_increasing(n % 62, m % 62);
        assert(en.take(km as int) =~= a);
        assert(em.take(km as int) =~= b);
        assert(en.take(km as int) == em.take(km as int) && en[km as int] < em[km as int]);
    } else {
        lemma_encode_ordered(n / 62, m / 62, km);
        let i = choose|i: int| 0 <= i < a.len() && i < b.len() && #[trigger] a.take(i) == b.take(i) && a[i] < b[i];
        assert(en.take(i) =~= a.take(i));
        assert(em.take(i) =~= b.take(i));
        assert(en[i] == a[i] && em[i] == b[i]);
        assert(en.take(i) == em.take(i) && en[i] < em[i]);
    }
}

/// Law: codes sort like their values: for `n < m` below `62^7` (in particular
/// any `n < m <= MAX_ID`), the code of `n` comes before the code of `m` in
/// lexicographic byte order.
pub proof fn lemma_base62_order(n: u64, m: u64)
    requires
        n < m,
        m < pow62(CODE_LEN as nat),
    ensures
        bytes_less(
            base62_encode(n as nat, CODE_LEN as nat),
            base62_encode(m as nat, CODE_LEN as nat),
        ),
{
    lemma_encode_ordered(n as nat, m as nat, CODE_LEN as nat);
}

/// Law: decoding the encoding of any value of the domain gives the value back.
pub proof fn lemma_base62_round_trip(n: u64)
    requires
        n <= MAX_ID,
    ensures
        base62_decode(base62_encode(n as nat, CODE_LEN as nat)) == Some(n),
{
    lemma_pow62_values();
    lemma_encode_shape(n as nat, CODE_LEN as nat);
    lemma_value_of_encode(n as nat, CODE_LEN as nat);
}

/// Law: a string that decodes is the encoding of its value, so every value
/// has exactly one code.
pub proof fn lemma_base62_canonical(s: Seq<u8>)
    requires
        base62_decode(s) is Some,
    ensures
        base62_encode(base62_decode(s).unwrap() as nat, CODE_LEN as nat) == s,
{
    lemma_encode_of_value(s);
}

/// Law: `from_base62` accepts exactly the codes: a byte string decodes to `v`
/// if and only if `v` is in the domain `[0, MAX_ID]` and the string is the
/// 7-character encoding of `v`. In particular no decoded value is ever above
/// `MAX_ID`.
pub proof fn lemma_decode_accepts_exactly_the_codes(s: Seq<u8>)
    ensures
        base62_decode(s) matches Some(v) ==> v <= MAX_ID,
        forall|v: u64|
            base62_decode(s) == Some(v) <==> (v <= MAX_ID && s == #[trigger] base62_encode(
                v as nat,
                CODE_LEN as nat,
            )),
{
    if base62_decode(s) is Some {
        lemma_base62_canonical(s);
    }
    assert forall|v: u64|
        v <= MAX_ID && s == #[trigger] base62_encode(
            v as nat,
            CODE_LEN as nat,
        ) implies base62_decode(s) == Some(v) by {
        lemma_base62_round_trip(v);
    }
}

/// Law: a code spells its value in the normative alphabet, most significant
/// digit first: character `i` of the `k`-digit encoding of `n` is
/// `ALPHABET[(n / 62^(k - 1 - i)) mod 62]`.
pub proof fn lemma_encode_digits(n: nat, k: nat, i: int)
    requires
        0 <= i < k,
    ensures
        base62_encode(n, k)[i] == ALPHABET@[((n / pow62((k - 1 - i) as nat)) % 62) as int],
    decreases k,
{
    lemma_alphabet();
    lemma_encode_shape(n / 62, (k - 1) as nat);
    let e = base62_encode(n, k);
    let prefix = base62_encode(n / 62, (k - 1) as nat);
    assert(e == prefix.push(digit_char(n % 62)));
    if i == k - 1 {
        assert(pow62(0) == 1);
        assert(e[i] == digit_char(n % 62));
        assert(ALPHABET@[(n % 62) as int] == digit_char(n % 62));
        assert((k - 1 - i) as nat == 0);
        assert(n / pow62((k - 1 - i) as nat) == n / 1);
        assert(n / 1 == n);
    } else {
        assert(e[i] == prefix[i]);
        lemma_encode_digits(n / 62, (k - 1) as nat, i);
        let p = pow62((k - 2 - i) as nat);
        assert(p > 0) by {
            lemma_pow62_positive((k - 2 - i) as nat);
        }
        vstd::arithmetic::div_mod::lemma_div_denominator(n as int, 62, p as int);
        assert(pow62((k - 1 - i) as nat) == 62 * p);
        let km = (k - 1) as nat;
        assert((km - 1 - i) as nat == (k - 2 - i) as nat);
        assert(prefix[i] == ALPHABET@[(((n / 62) / p) % 62) as int]);
        assert((n / 62) / p == n / (62 * p));
        assert(n / pow62((k - 1 - i) as nat) == (n / 62) / p);
    }
}

proof fn lemma_pow62_positive(k: nat)
    ensures
        pow62(k) > 0,
    decreases k,
{
    if k > 0 {
        lemma_pow62_positive((k - 1) as nat);
    }
}

/// ASCII bytes are the UTF-8 encoding of their characters, and of no other
/// characters.
proof fn lemma_ascii_utf8(bytes: Seq<u8>)
    requires
        forall|i: int| 0 <= i < bytes.len() ==> bytes[i] < 128,
    ensures
        valid_utf8(bytes),
        encode_utf8(ascii_chars(bytes)) == bytes,
        forall|c: Seq<char>| encode_utf8(c) == bytes ==> c == ascii_chars(bytes),
{
    let c = ascii_chars(bytes);
    assert(is_ascii_chars(c));
    is_ascii_chars_encode_utf8(c);
    assert(encode_utf8(c) =~= bytes);
    encode_utf8_valid_utf8(c);
    assert forall|d: Seq<char>| encode_utf8(d) == bytes implies d == c by {
        encode_utf8_decode_utf8(d);
        encode_utf8_decode_utf8(c);
    }
}

/// `String::from_utf8` (std): the string whose UTF-8 encoding is `bytes` when
/// `bytes` is valid UTF-8, and `None` otherwise. The contract claims only what
/// std documents: success exactly on valid UTF-8, with the bytes unchanged.
#[verifier::external_body]
fn string_from_utf8(bytes: Vec<u8>) -> (r: Option<String>)
    ensures
        r is Some <==> valid_utf8(bytes@),
        r matches Some(s) ==> encode_utf8(s@) == bytes@,
{
    String::from_utf8(bytes).ok()
}

/// Encodes a 40-bit integer as a 7-character base62 string, most significant
/// digit first, left-padded with `'0'`.
///
/// Values above `MAX_ID` are silently truncated to 7 digits; callers must
/// reduce to the domain first.
pub fn to_base62(n: u64) -> (s: String)
    ensures
        s@.len() == CODE_LEN,
        s@ == ascii_chars(base62_encode(n as nat, CODE_LEN as nat)),
        encode_utf8(s@) == base62_encode(n as nat, CODE_LEN as nat),
{
    let ghost n0 = n as nat;
    let mut n = n;
    let mut buf: Vec<u8> = Vec::new();
    for _k in 0..CODE_LEN
        invariant
            forall|j: int| 0 <= j < buf.len() ==> buf@[j] == 48u8,
            buf.len() == _k,
    {
        buf.push(48u8);
    }
    let mut i = CODE_LEN;
    proof {
        lemma_alphabet();
        assert(buf@.subrange(7, 7) =~= Seq::<u8>::empty());
        assert(base62_encode(n0, 7) =~= base62_encode(n0, 7) + Seq::<u8>::empty());
    }
    while n > 0 && i > 0
        invariant
            i <= CODE_LEN,
            buf.len() == CODE_LEN,
            forall|j: int| 0 <= j < i ==> buf@[j] == 48u8,
            base62_encode(n0, 7) == base62_encode(n as nat, i as nat) + buf@.subrange(i as int, 7),
            forall|d: int| 0 <= d < 62 ==> #[trigger] ALPHABET@[d] == digit_char(d as nat),
        decreases i,
    {
        let ghost before = buf@;
        let ghost m = n as nat;
        i -= 1;
        buf.set(i, ALPHABET[(n % 62) as usize]);
        n /= 62;
        proof {
            assert(buf@.subrange(i as int, 7) =~= seq![digit_char(m % 62)] + before.subrange(
                i + 1,
                7,
            ));
            assert(base62_encode(m, (i + 1) as nat) =~= base62_encode(n as nat, i as nat) + seq![
                digit_char(m % 62),
            ]);
        }
    }
    proof {
        if n == 0 {
            lemma_encode_zero(i as nat);
        }
        assert(buf@ =~= base62_encode(n0, 7));
        lemma_encode_shape(n0, 7);
        lemma_digit_chars_ascii(buf@);
        lemma_ascii_utf8(buf@);
        assert(ascii_chars(buf@).len() == 7);
    }
    match string_from_utf8(buf) {
        Some(s) => s,
        None => String::new(),
    }
}

/// The characters of a code are the UTF-8 decoding of its bytes.
pub proof fn lemma_ascii_encoding(n: u64)
    ensures
        encode_utf8(ascii_chars(base62_encode(n as nat, CODE_LEN as nat))) == base62_encode(
            n as nat,
            CODE_LEN as nat,
        ),
        ascii_chars(base62_encode(n as nat, CODE_LEN as nat)).len() == CODE_LEN,
{
    let e = base62_encode(n as nat, CODE_LEN as nat);
    lemma_encode_shape(n as nat, CODE_LEN as nat);
    lemma_digit_chars_ascii(e);
    lemma_ascii_utf8(e);
}

/// Law: `from_base62(&to_base62(n)) == Some(n)` for every `n` of the domain:
/// the bytes of the string that `to_base62` gives decode back to `n`.
pub proof fn lemma_base62_string_round_trip(n: u64)
    requires
        n <= MAX_ID,
    ensures
        base62_decode(encode_utf8(ascii_chars(base62_encode(n as nat, CODE_LEN as nat)))) == Some(
            n,
        ),
{
    lemma_ascii_encoding(n);
    lemma_base62_round_trip(n);
}

/// Alphabet characters are ASCII.
proof fn lemma_digit_chars_ascii(s: Seq<u8>)
    requires
        all_digits(s),
    ensures
        forall|i: int| 0 <= i < s.len() ==> s[i] < 128,
{
    assert forall|i: int| 0 <= i < s.len() implies s[i] < 128 by {
        assert(char_digit(s[i]) is Some);
    }
}

/// Maps one alphabet character to its digit value.
fn val(c: u8) -> (d: Option<u64>)
    ensures
        d == (match char_digit(c) {
            Some(v) => Some(v as u64),
            None => None,
        }),
{
    if 48 <= c && c <= 57 {
        Some((c - 48) as u64)
    } else if 65 <= c && c <= 90 {
        Some((c - 55) as u64)
    } else if 97 <= c && c <= 122 {
        Some((c - 61) as u64)
    } else {
        None
    }
}

/// Decodes a 7-character base62 string back to its integer value.
///
/// Returns `None` (never panics) when the string is not exactly 7 bytes,
/// contains a character outside the alphabet, or decodes to a value above
/// `MAX_ID`.
pub fn from_base62(s: &str) -> (r: Option<u64>)
    ensures
        r == base62_decode(s.spec_bytes()),
        r matches Some(v) ==> v <= MAX_ID && s.spec_bytes() == base62_encode(v as nat, CODE_LEN as nat),
{
    proof {
        lemma_decode_accepts_exactly_the_codes(s.spec_bytes());
    }
    let bytes = s.as_bytes();
    if bytes.len() != CODE_LEN {
        return None;
    }
    let ghost full = bytes@;
    let mut n: u64 = 0;
    let mut i: usize = 0;
    proof {
        lemma_pow62_values();
        assert(full.take(0) =~= Seq::<u8>::empty());
    }
    while i < bytes.len()
        invariant
            bytes@ == full,
            full == s.spec_bytes(),
            full.len() == CODE_LEN,
            i <= CODE_LEN,
            all_digits(full.take(i as int)),
            n == base62_value(full.take(i as int)),
            n < pow62(i as nat),
            pow62(7) == 3_521_614_606_208,
            forall|k: nat| k <= 7 ==> #[trigger] pow62(k) <= pow62(7),
        decreases CODE_LEN - i,
    {
        let c = bytes[i];
        let d = match val(c) {
            Some(d) => d,
            None => {
                proof {
                    assert(char_digit(full[i as int]) is None);
                    assert(!all_digits(full));
                }
                return None;
            },
        };
        proof {
            assert(pow62((i + 1) as nat) == 62 * pow62(i as nat));
            assert(pow62((i + 1) as nat) <= pow62(7));
            assert(full.take(i + 1).drop_last() =~= full.take(i as int));
            assert(all_digits(full.take(i + 1))) by {
                assert forall|j: int| 0 <= j < i + 1 implies (#[trigger] char_digit(
                    full.take(i + 1)[j],
                )) is Some by {
                    if j < i {
                        assert(full.take(i + 1)[j] == full.take(i as int)[j]);
                    }
                }
            }
        }
        n = match n.checked_mul(62) {
            Some(m) => match m.checked_add(d) {
                Some(v) => v,
                None => return None,
            },
            None => return None,
        };
        i += 1;
    }
    proof {
        assert(full.take(7) =~= full);
    }
    if n <= MAX_ID {
        Some(n)
    } else {
        None
    }
}

} // verus!

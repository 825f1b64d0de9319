//! `arxid`: a keyed, reversible permutation over the 40-bit id domain (a
//! balanced Feistel network with an ARX round function), with a fixed-length
//! base62 string layer.

pub mod bits;
pub mod codec;
pub mod permute;
pub mod wasm;

use vstd::prelude::*;
use vstd::string::StringSliceAdditionalSpecFns;
use vstd::utf8::encode_utf8;
use zeroize::Zeroize;

pub use codec::{from_base62, to_base62, ALPHABET, CODE_LEN};
pub use permute::{deobfuscate, obfuscate, MAX_ID, ROUNDS, WIDTH_BITS};
pub use wasm::WasmArxid;

use codec::{ascii_chars, base62_decode, base62_encode};
use permute::{deobfuscate_spec, obfuscate_spec};

verus! {

/// The specification version this implementation conforms to.
pub const SPEC_VERSION: u32 = 2;

/// A keyed, reversible permutation over the 40-bit id domain.
///
/// Holds the key so callers do not have to thread it through every call. The
/// free functions [`obfuscate`] and [`deobfuscate`] are available when a key
/// is more convenient as an argument.
#[derive(PartialEq, Eq, Structural)]
pub struct Arxid {
    key: u64,
}

impl View for Arxid {
    type V = u64;

    /// The key.
    closed spec fn view(&self) -> u64 {
        self.key
    }
}

/// The key that 8 big-endian bytes stand for.
pub open spec fn key_from_be_bytes(b: Seq<u8>) -> int {
    b[0] as int * 0x100_0000_0000_0000 + b[1] as int * 0x1_0000_0000_0000 + b[2] as int
        * 0x100_0000_0000 + b[3] as int * 0x1_0000_0000 + b[4] as int * 0x100_0000 + b[5] as int
        * 0x1_0000 + b[6] as int * 0x100 + b[7] as int
}

/// What `obfuscate_str` gives for `id` under `key`: the base62 characters of
/// the code.
pub open spec fn obfuscate_str_spec(id: u64, key: u64) -> Seq<char> {
    ascii_chars(base62_encode(obfuscate_spec(id, key) as nat, CODE_LEN as nat))
}

/// What `deobfuscate_str` gives for a string with UTF-8 bytes `s` under
/// `key`: the id behind the code when `s` is a valid code, `None` otherwise.
pub open spec fn deobfuscate_str_spec(s: Seq<u8>, key: u64) -> Option<u64> {
    match base62_decode(s) {
        Some(code) => Some(deobfuscate_spec(code, key)),
        None => None,
    }
}

/// `Zeroize::zeroize` on a `u64` (zeroize): overwrites the value with zero by
/// a volatile write, which cannot fail.
#[verifier::external_body]
fn wipe_key(key: &mut u64)
    ensures
        *final(key) == 0,
    opens_invariants none
    no_unwind
{
    key.zeroize();
}

impl Arxid {
    /// Builds a permutation from a 64-bit key.
    ///
    /// Every bit of the key participates in the key schedule. There is no
    /// tweak: one key defines one global mapping.
    pub fn new(key: u64) -> (a: Self)
        ensures
            a@ == key,
    {
        Arxid { key }
    }

    /// Builds a permutation from 8 raw key bytes, read big-endian.
    pub fn from_key_bytes(bytes: [u8; 8]) -> (a: Self)
        ensures
            a@ == key_from_be_bytes(bytes@),
            forall|i: int|
                0 <= i < 8 ==> (a@ >> ((8 * (7 - i)) as u64)) & 0xFFu64 == bytes@[i] as u64,
    {
        proof {
            lemma_key_bytes_are_big_endian(bytes);
        }
        let key = (bytes[0] as u64) * 0x100_0000_0000_0000 + (bytes[1] as u64) * 0x1_0000_0000_0000
            + (bytes[2] as u64) * 0x100_0000_0000 + (bytes[3] as u64) * 0x1_0000_0000 + (
        bytes[4] as u64) * 0x100_0000 + (bytes[5] as u64) * 0x1_0000 + (bytes[6] as u64) * 0x100
            + (bytes[7] as u64);
        Arxid { key }
    }

    /// Obfuscates an id. Values outside `[0, MAX_ID]` are reduced with
    /// `& MAX_ID`. Never panics.
    pub fn obfuscate(&self, id: u64) -> (code: u64)
        ensures
            code == obfuscate_spec(id, self@),
            code <= MAX_ID,
    {
        permute::obfuscate(id, self.key)
    }

    /// Recovers the original id from an obfuscated code. Values outside
    /// `[0, MAX_ID]` are reduced with `& MAX_ID`. Never panics.
    pub fn deobfuscate(&self, code: u64) -> (id: u64)
        ensures
            id == deobfuscate_spec(code, self@),
            id <= MAX_ID,
    {
        permute::deobfuscate(code, self.key)
    }

    /// Obfuscates an id and encodes it as a 7-character base62 string.
    pub fn obfuscate_str(&self, id: u64) -> (s: String)
        ensures
            s@ == obfuscate_str_spec(id, self@),
            encode_utf8(s@) == base62_encode(obfuscate_spec(id, self@) as nat, CODE_LEN as nat),
    {
        to_base62(self.obfuscate(id))
    }

    /// Decodes a 7-character base62 string and recovers the original id.
    ///
    /// Returns `None` when the string is not a valid code (wrong length,
    /// character outside the alphabet, or value above `MAX_ID`). Any
    /// well-formed code decodes to some id: this is a permutation, not a MAC.
    pub fn deobfuscate_str(&self, s: &str) -> (r: Option<u64>)
        ensures
            r == deobfuscate_str_spec(s.spec_bytes(), self@),
    {
        match from_base62(s) {
            Some(code) => Some(self.deobfuscate(code)),
            None => None,
        }
    }

    /// A rendering of the value for logs and panic messages, with the key
    /// redacted so that it cannot leak through them.
    pub fn redacted_debug(&self) -> (s: String)
        ensures
            s@ == "Arxid { key: \"<redacted>\" }"@,
    {
        "Arxid { key: \"<redacted>\" }".to_owned()
    }
}

impl Clone for Arxid {
    /// A permutation with the same key.
    fn clone(&self) -> (c: Self)
        ensures
            c@ == self@,
    {
        Arxid { key: self.key }
    }
}

/// Wipes the key from memory when the value is dropped.
impl Drop for Arxid {
    fn drop(&mut self)
        ensures
            final(self)@ == 0,
        opens_invariants none
        no_unwind
    {
        wipe_key(&mut self.key);
    }
}

/// Law: a key read from bytes has those bytes as its big-endian bytes: byte
/// `i` of the input is bits `8 * (7 - i)` to `8 * (7 - i) + 7` of the key.
pub proof fn lemma_key_bytes_are_big_endian(bytes: [u8; 8])
    ensures
        0 <= key_from_be_bytes(bytes@) <= u64::MAX,
        forall|i: int|
            0 <= i < 8 ==> ((key_from_be_bytes(bytes@) as u64) >> ((8 * (7 - i)) as u64)) & 0xFFu64
                == bytes@[i] as u64,
{
    let b = bytes@;
    bits::lemma_be_bytes(b[0], b[1], b[2], b[3], b[4], b[5], b[6], b[7]);
    let k = key_from_be_bytes(b) as u64;
    let kk = ((b[0] as u64) << 56u64) | ((b[1] as u64) << 48u64) | ((b[2] as u64) << 40u64) | ((
    b[3] as u64) << 32u64) | ((b[4] as u64) << 24u64) | ((b[5] as u64) << 16u64) | ((b[6] as u64)
        << 8u64) | (b[7] as u64);
    assert(k == kk);
    assert forall|i: int| 0 <= i < 8 implies (k >> ((8 * (7 - i)) as u64)) & 0xFFu64 == b[i] as u64 by {
        if i == 0 {
            assert((8 * (7 - i)) as u64 == 56u64);
            assert((k >> 56u64) & 0xFFu64 == b[0] as u64);
        } else if i == 1 {
            assert((8 * (7 - i)) as u64 == 48u64);
            assert((k >> 48u64) & 0xFFu64 == b[1] as u64);
        } else if i == 2 {
            assert((8 * (7 - i)) as u64 == 40u64);
            assert((k >> 40u64) & 0xFFu64 == b[2] as u64);
        } else if i == 3 {
            assert((8 * (7 - i)) as u64 == 32u64);
            assert((k >> 32u64) & 0xFFu64 == b[3] as u64);
        } else if i == 4 {
            assert((8 * (7 - i)) as u64 == 24u64);
            assert((k >> 24u64) & 0xFFu64 == b[4] as u64);
        } else if i == 5 {
            assert((8 * (7 - i)) as u64 == 16u64);
            assert((k >> 16u64) & 0xFFu64 == b[5] as u64);
        } else if i == 6 {
            assert((8 * (7 - i)) as u64 == 8u64);
            assert((k >> 8u64) & 0xFFu64 == b[6] as u64);
        } else {
            assert((8 * (7 - i)) as u64 == 0u64);
            assert((k >> 0u64) & 0xFFu64 == b[7] as u64);
        }
    }
}

/// Law: the string layer round-trips: decoding the string of an id gives the
/// id back, reduced to the domain.
pub proof fn lemma_string_round_trip(id: u64, key: u64)
    ensures
        deobfuscate_str_spec(encode_utf8(obfuscate_str_spec(id, key)), key) == Some(id & MAX_ID),
        obfuscate_str_spec(id, key).len() == CODE_LEN,
{
    permute::lemma_obfuscate_round_trip(id, key);
    let code = obfuscate_spec(id, key);
    codec::lemma_base62_round_trip(code);
    codec::lemma_ascii_encoding(code);
}

} // verus!

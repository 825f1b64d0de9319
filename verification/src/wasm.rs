//! The surface that is exported to JavaScript: a keyed permutation whose ids,
//! codes and key are all 64-bit integers on that side.

use vstd::prelude::*;
use vstd::string::StringSliceAdditionalSpecFns;

use crate::permute::{deobfuscate_spec, obfuscate_spec, MAX_ID};
use crate::{deobfuscate_str_spec, obfuscate_str_spec, Arxid};

verus! {

/// A keyed permutation, as exposed to JavaScript.
pub struct WasmArxid {
    inner: Arxid,
}

impl View for WasmArxid {
    type V = u64;

    /// The key.
    closed spec fn view(&self) -> u64 {
        self.inner@
    }
}

impl WasmArxid {
    /// Builds a permutation from a 64-bit key.
    pub fn new(key: u64) -> (w: Self)
        ensures
            w@ == key,
    {
        WasmArxid { inner: Arxid::new(key) }
    }

    /// Obfuscates an id.
    pub fn obfuscate(&self, id: u64) -> (code: u64)
        ensures
            code == obfuscate_spec(id, self@),
            code <= MAX_ID,
    {
        self.inner.obfuscate(id)
    }

    /// Recovers the original id from an obfuscated code.
    pub fn deobfuscate(&self, code: u64) -> (id: u64)
        ensures
            id == deobfuscate_spec(code, self@),
            id <= MAX_ID,
    {
        self.inner.deobfuscate(code)
    }

    /// Obfuscates an id and encodes it as a 7-character base62 string.
    pub fn obfuscate_str(&self, id: u64) -> (s: String)
        ensures
            s@ == obfuscate_str_spec(id, self@),
    {
        self.inner.obfuscate_str(id)
    }

    /// Decodes a 7-character base62 string, giving `None` when the string is
    /// not a valid code.
    pub fn deobfuscate_str(&self, s: &str) -> (r: Option<u64>)
        ensures
            r == deobfuscate_str_spec(s.spec_bytes(), self@),
    {
        self.inner.deobfuscate_str(s)
    }
}

} // verus!

# arxid

A keyed, reversible permutation over the 40-bit id domain (a balanced Feistel
network with an ARX round function), with a fixed 7-character base62 string
layer. Sequential id in, unordered code out; reversible with the key.

Layout:

- `src/permute.rs`: the key schedule, the round function, the Feistel passes
  and `obfuscate`/`deobfuscate`, with the laws of the permutation (round trip
  both ways, injectivity, reduction of out-of-domain input, the
  relation between the subkeys of complementary keys).
- `src/codec.rs`: `to_base62`/`from_base62` and the laws of the encoding
  (round trip, one code per value, codes sort like values).
- `src/lib.rs`: the `Arxid` type, which holds the key, and the string-layer
  round trip.
- `src/wasm.rs`: the surface exported to JavaScript; `app/lib.rs` puts the
  `wasm-bindgen` bindings on it.
- `src/bits.rs`: bit-level lemmas.

Obfuscation is not encryption: every well-formed code decodes to some id.

[package]
name = "arxid"
version = "0.2.0"
edition = "2021"
publish = false

[dependencies]
zeroize = "1"
wasm-bindgen = "0.2"

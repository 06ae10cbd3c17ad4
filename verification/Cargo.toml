[package]
name = "piece_hasher"
version = "0.1.0"
edition = "2021"
publish = false

[dependencies]
sha2 = "0.10"
unsigned-varint = "0.8"
multihash = "0.19"
cid = "0.11"
multihash-derive = "0.9"
lazy_static = "1"
wasm-bindgen = "0.2"
wasm-bindgen-futures = "0.4"
js-sys = "0.3"
web-sys = { version = "0.3", features = ["Crypto", "SubtleCrypto", "TransformStream", "ReadableStream", "WritableStream"] }
wasm-streams = "0.4"

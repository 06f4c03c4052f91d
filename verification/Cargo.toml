[package]
name = "lkv"
version = "0.1.0"
edition = "2021"
publish = false

[dependencies]
crc32c = "0.6"
fs2 = "0.4"
hashbrown = { version = "*", default-features = false }
memmap2 = "0.9"
rustc-hash = "2"
xxhash-rust = { version = "0.8", features = ["xxh3"] }

[package]
name = "micro_bloom"
version = "0.1.0"
edition = "2021"
publish = false

[dependencies]
xxhash-rust = { version = "*", features = ["xxh32"] }

[dev-dependencies]
frand = "*"

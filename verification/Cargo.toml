[package]
name = "tiny_lru"
version = "0.1.0"
edition = "2021"
publish = false

[dependencies]
likely_stable = "*"
rustc-hash = "*"
tinyvec = { version = "1", features = ["alloc", "rustc_1_55"] }

[package]
name = "entropyfs_store"
version = "0.1.0"
edition = "2021"
publish = false

[dependencies]
blake3 = { version = "1", features = ["pure"] }
rustix = { version = "1", features = ["fs", "time"] }
io-uring = "0.7"

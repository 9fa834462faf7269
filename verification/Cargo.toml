[package]
name = "bitswap"
version = "0.1.0"
edition = "2021"
publish = false

[dependencies]
libipld = { version = "=0.12.0", default-features = false }
multihash = { version = "=0.14.0", default-features = false, features = ["std", "multihash-impl", "sha2", "blake3"] }
futures = "=0.3.34"
unsigned-varint = { version = "=0.7.2", features = ["futures"] }

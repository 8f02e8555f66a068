[package]
name = "shred_detector"
version = "0.1.0"
edition = "2021"
publish = false

[dependencies]
bincode = "=1.3.3"
solana-transaction = { version = "=4.3.0", default-features = false, features = ["serde", "std"] }
solana-pubkey = { version = "=4.4.0", default-features = false }

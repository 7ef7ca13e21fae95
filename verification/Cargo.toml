[package]
name = "whir"
version = "0.1.0"
edition = "2021"
publish = false

[dependencies]
ark-bn254 = "=0.4.0"
ark-crypto-primitives = { version = "0.5", features = ["crh", "merkle_tree"] }
ark-ff = "=0.4.2"
ark-poly = "=0.4.2"
ark-serialize = "=0.4.2"
ark-std = "=0.4.0"
nimue = { version = "=0.1.1", features = ["ark"] }
rand = "=0.8.8"
rand_chacha = "=0.3.1"
serde = { version = "1", features = ["derive"] }
serde_json = "1"
sha3 = "=0.10.9"

[dev-dependencies]
blake3 = "1"

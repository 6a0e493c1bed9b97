[package]
name = "threshold_crypto"
version = "0.1.0"
edition = "2021"
publish = false

[dependencies]
bls12_381 = "0.8"
ff = "0.13"
group = "0.13"
rand = "0.8"
rand_chacha = "0.3"
sha3 = "0.10"
serde = { version = "1.0", features = ["derive"] }
serde-big-array = "0.5"

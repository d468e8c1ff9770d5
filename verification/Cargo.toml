[package]
name = "ecfft_group"
version = "0.1.0"
edition = "2021"
publish = false

[dependencies]
ark-ff = "0.4"
ark-ec = "0.4"
ark-bn254 = "0.4"
ark-bls12-381 = "0.4"
ark-curve25519 = "0.4"
ark-ed25519 = "0.4"

[dev-dependencies]
ark-std = "0.4"

[package]
name = "poseidon_encryption"
version = "0.1.0"
edition = "2021"
publish = false

[dependencies]
derive-hex = "=0.1.2"
dusk-bls12_381 = { version = "=0.8.0", default-features = false }
dusk-bytes = "=0.1.7"
dusk-hades = { version = "=0.16.0", default-features = false }
dusk-jubjub = { version = "=0.10.1", default-features = false }
hex = "=0.4.3"
rand_core = { version = "=0.6.4", features = ["getrandom"] }
sha3 = "=0.10.9"

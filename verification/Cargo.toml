[package]
name = "attestation"
version = "0.1.0"
edition = "2021"
publish = false

[dependencies]
bls_on_arkworks = "=0.3.0"
rand = "=0.8.8"
serde = { version = "=1.0.229", features = ["derive"] }
sha2 = "=0.10.9"
ssz = "=0.1.2"

[dev-dependencies]
rand_xorshift = "=0.3.0"

[package]
name = "taus_rng"
version = "0.1.0"
edition = "2021"
publish = false

[dependencies]
ciborium = "0.2"
wasm-minimal-protocol = "*"

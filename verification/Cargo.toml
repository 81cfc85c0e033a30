[package]
name = "chain_primitives"
version = "0.1.0"
edition = "2021"

[dependencies]
ckb-hash = "=1.1.1"
ckb-types = "=1.1.4"
faster-hex = "=1.0.0"
serde = "=1.0.229"

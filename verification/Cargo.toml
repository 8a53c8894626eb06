[package]
name = "twit"
version = "0.1.0"
edition = "2021"
publish = false

[dependencies]
cbor = "*"
hex = "*"
protobuf = "2"
rand = "*"
sawtooth-sdk = "*"
secp256k1 = "*"
serde = { version = "*", features = ["derive"] }
serde_cbor = "*"
sha2 = "*"

[package]
name = "hotstuff_rs"
version = "0.4.0"
edition = "2021"
publish = false

[dependencies]
borsh = "0.10"
ed25519-dalek = "2"
sha2 = "0.10"
rand = "0.8"
log = "0.4"

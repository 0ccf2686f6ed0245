[package]
name = "jury_ledger"
version = "0.1.0"
edition = "2021"
publish = false

[dependencies]
ic-certified-map = "*"
sha2 = "0.10"
rand = "0.8"
rand_chacha = "0.3"
hex = "0.4"
serde = "1"
serde_cbor = "0.11"

[package]
name = "milhouse"
version = "0.1.0"
edition = "2021"
publish = false

[dependencies]
ethereum_hashing = "*"

[dev-dependencies]
ethereum_ssz = "*"
ssz_types = "*"
tree_hash = "*"
typenum = "*"

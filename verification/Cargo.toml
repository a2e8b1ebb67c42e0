[package]
name = "prefix_set_loader"
version = "0.1.0"
edition = "2021"
publish = false

[dependencies]
alloy-primitives = "*"
rayon = "*"
reth-db-api = "*"
reth-primitives-traits = "*"
reth-trie = "*"

[package]
name = "stateless_trie"
version = "0.1.0"
edition = "2021"
publish = false

[dependencies]
alloy-consensus = "1.0.42"
alloy-primitives = { version = "1", features = ["serde"] }
alloy-rlp = "0.3"
serde = { version = "1", features = ["derive"] }
serde_json = "1"

[dev-dependencies]
alloy-trie = "*"

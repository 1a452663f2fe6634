[package]
name = "flat_trie"
version = "0.1.0"
edition = "2021"
publish = false

[dependencies]
odds = { version = "*", features = ["std-vec"] }

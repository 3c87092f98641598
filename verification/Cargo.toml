[package]
name = "trie_storage"
version = "0.1.0"
edition = "2021"
publish = false

[dependencies]
lru = { version = "=0.7.8", default-features = false }

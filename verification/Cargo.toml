[package]
name = "adaptive_filter_search"
version = "0.1.0"
edition = "2021"
publish = false

[dependencies]
anyhow = "1"
bit-set = "0.8"
serde_json = "1"

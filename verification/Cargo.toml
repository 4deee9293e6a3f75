[package]
name = "bloom_filter"
version = "0.1.0"
edition = "2021"

[dependencies]
ahash = { version = "=0.8.12", default-features = false }

[dev-dependencies]
rand = "=0.10.3"

[package]
name = "reeves"
version = "0.1.0"
edition = "2021"
publish = false

[dependencies]
serde = { version = "1", features = ["derive"] }
bincode = "1"
sled = "*"
meilisearch-sdk = "*"
futures = "*"
log = "*"

[package]
name = "block_store"
version = "0.1.0"
edition = "2021"
publish = false

[dependencies]
anyhow = "*"
libipld = "*"
rusqlite = { version = "*", features = ["bundled"] }
tracing = "*"

[package]
name = "foliom_core"
version = "0.1.0"
edition = "2021"
publish = false

[dependencies]
unicode-normalization = "*"
blake3 = "*"
serde = { version = "*", features = ["derive"] }
serde_json = "*"
walkdir = "*"
tempfile = "*"
dashmap = "*"
rusqlite = { version = "*", features = ["bundled"] }
thiserror = "*"

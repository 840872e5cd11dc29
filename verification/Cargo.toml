[package]
name = "aqua_db"
version = "0.1.0"
edition = "2021"
publish = false

[dependencies]
anyhow = "1"
lru = "0.7"
reqwest = { version = "0.11", default-features = false, features = ["blocking"] }
serde = { version = "1", features = ["derive"] }
serde_derive = "1"
serde_json = "1"

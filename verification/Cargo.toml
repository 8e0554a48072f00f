[package]
name = "revolt_core"
version = "0.1.0"
edition = "2021"
publish = false

[dependencies]
regex = "1"
ulid = "1"
serde = { version = "1", features = ["derive"] }
serde_json = "1"

[package]
name = "item_build"
version = "0.1.0"
edition = "2021"
publish = false

[dependencies]
anyhow = "1"
microlp = "*"
serde = { version = "1", features = ["derive"] }
serde_derive = "1"
serde_json = "1"

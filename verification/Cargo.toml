[package]
name = "bomsync"
version = "0.1.0"
edition = "2021"
publish = false

[dependencies]
calamine = "0.22"
csv = "1"
serde = { version = "1", features = ["derive"] }
serde_json = "1"
tauri = { version = "2", default-features = false }

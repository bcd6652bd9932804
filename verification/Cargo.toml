[package]
name = "rustguard"
version = "0.2.0"
edition = "2021"
publish = false

[dependencies]
anyhow = "1"
chrono = "0.4"
colored = "2"
rand = "0.8"
serde = { version = "1", features = ["derive"] }
serde_json = "1"
smartcore = "0.4"

[package]
name = "wassette"
version = "0.1.0"
edition = "2021"
publish = false

[dependencies]
anyhow = "*"
chrono = "*"
etcetera = "*"
serde = { version = "*", features = ["derive"] }
serde_json = "*"
serde_yaml = "*"

[package]
name = "axosync"
version = "0.1.0"
edition = "2021"
publish = false

[dependencies]
actix-web = "4"
anyhow = "1"
camino = { version = "1", features = ["serde1"] }
colored = "*"
dialoguer = "*"
env_logger = "0.11"
serde = { version = "1", features = ["derive"] }
serde_json = "1"
toml = "*"
walkdir = "2"

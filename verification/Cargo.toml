[package]
name = "icfp2024"
version = "0.1.0"
edition = "2021"
publish = false

[dependencies]
serde = { version = "*", features = ["derive"] }
serde_json = "*"
rusqlite = { version = "*", features = ["bundled"] }
svg = "*"
clap = { version = "*", features = ["derive"] }
env_logger = "*"

[package]
name = "gap_core"
version = "0.2.0"
edition = "2021"
publish = false

[dependencies]
tokio = { version = "*", features = ["full"] }
tokio-tungstenite = "*"
futures = "*"
serde = { version = "*", features = ["derive"] }
serde_json = "*"
anyhow = "*"
log = "*"
env_logger = "*"

[package]
name = "staticauth"
version = "0.1.0"
edition = "2021"
publish = false

[dependencies]
anyhow = "1"
argon2 = "0.5"
axum = { version = "0.6", features = ["headers"] }
axum-extra = { version = "0.7", features = ["cookie"] }
chrono = "0.4"
clap = { version = "4", features = ["derive"] }
cookie = { version = "0.17", features = ["signed"] }
env_logger = "0.10"
log = "0.4"
serde = { version = "1", features = ["derive"] }
serde_json = "1"
tokio = { version = "1", features = ["full"] }
toml = "0.7"

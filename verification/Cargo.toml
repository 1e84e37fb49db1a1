[package]
name = "autoint"
version = "0.3.0"
edition = "2021"
publish = false

[dependencies]
feed-rs = "*"
unicode-normalization = "*"
regex = "*"
sha2 = "*"
serde = { version = "*", features = ["derive"] }
serde_json = "*"
tokio = { version = "*", features = ["full"] }
futures = "*"
reqwest = { version = "0.12", default-features = false, features = ["rustls-tls"] }
log = "*"
env_logger = "*"
chrono = "*"
axum = "*"
tokio-util = { version = "*", features = ["io"] }
include_directory = "*"
safetensors = "*"
rustpotion = "*"
tokio-postgres = "*"

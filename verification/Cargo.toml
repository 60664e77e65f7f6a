[package]
name = "velocity"
version = "0.1.0"
edition = "2021"
publish = false

[dependencies]
argon2 = "0.5"
axum = "0.7"
bytes = "1"
chrono = "0.4"
clap = { version = "4", features = ["derive"] }
colored = "2"
crc32fast = "1"
dialoguer = "0.11"
env_logger = "0.10"
log = "0.4"
notify = "6"
open = "5"
rand = "0.8"
rustls = "0.21"
serde = { version = "1", features = ["derive"] }
serde_json = "1"
sha2 = "0.10"
sqlparser = "0.39"
tokio = { version = "1", features = ["full"] }
tokio-rustls = "0.24"
toml = "0.8"
tower-http = { version = "0.5", features = ["cors"] }

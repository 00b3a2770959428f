[package]
name = "sweet_magnet"
version = "0.1.0"
edition = "2021"
publish = false

[dependencies]
anyhow = "1"
bytes = "1"
chrono = "0.4"
clap = { version = "4", features = ["derive"] }
env_logger = "0.11"
log = "0.4"
rand = "0.9"
reqwest = { version = "0.12", default-features = false }
serde = { version = "1", features = ["derive"] }
serde_bencode = "0.2"
serde_json = "1"
sha1 = "0.10"
tokio = { version = "1", features = ["full"] }
url = "2"

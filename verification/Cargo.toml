[package]
name = "bittorrent"
version = "0.1.0"
edition = "2021"
publish = false

[dependencies]
anyhow = "*"
bit-set = "*"
env_logger = "*"
futures = "*"
hex = "*"
log = "*"
mainline = "*"
priority-queue = "*"
rand = "*"
sha1 = "*"
size = "*"
tokio = { version = "*", features = ["full"] }
tokio-stream = "*"
tokio-util = { version = "*", features = ["codec"] }

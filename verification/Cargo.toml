[package]
name = "minesave"
version = "0.1.0"
edition = "2021"
publish = false

[dependencies]
ring = "*"
zstd = "*"
uuid = { version = "*", features = ["v4"] }
serde = { version = "*", features = ["derive"] }
serde_json = "*"
rmp-serde = "*"
walkdir = "*"
clap = { version = "*", features = ["derive"] }
dirs = "*"
log = "*"
env_logger = "*"
anyhow = "*"
thiserror = "*"

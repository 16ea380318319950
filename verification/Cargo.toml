[package]
name = "ide_server"
version = "0.1.0"
edition = "2021"
publish = false

[dependencies]
anyhow = "1"
async-channel = "2"
async-tungstenite = "*"
base64 = "0.22"
clap = { version = "4", features = ["derive"] }
env_logger = "0.11"
futures = "0.3"
log = "0.4"
portable-pty = "*"
serde = { version = "1", features = ["derive"] }
serde_json = "1"
smol = "2"

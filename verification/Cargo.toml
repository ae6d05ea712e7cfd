[package]
name = "sqcli"
version = "1.1.0"
edition = "2021"
publish = false

[dependencies]
base64 = "0.22"
chrono = "0.4"
clap = { version = "4", features = ["derive"] }
color-eyre = "0.6"
crossterm = { version = "0.28", features = ["event-stream"] }
dotenvy = "0.15"
env_logger = "0.11"
eyre = "0.6"
flate2 = "1"
futures = "0.3"
log = "0.4"
ratatui = "0.29"
reqwest = { version = "0.12", default-features = false, features = ["rustls-tls", "stream"] }
serde = { version = "1", features = ["derive"] }
serde_json = "1"
tokio = { version = "1", features = ["full"] }
tokio-tungstenite = { version = "0.26", features = ["rustls-tls-webpki-roots"] }

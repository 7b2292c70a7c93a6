[package]
name = "diffuse-daemon"
version = "0.1.0"
edition = "2021"
publish = false

[dependencies]
anyhow = "1"
axum = "0.7"
chacha20poly1305 = "0.10"
clap = { version = "4", features = ["derive"] }
console = "0.15"
crossterm = "0.28"
ed25519-dalek = "2"
hex = "0.4"
indicatif = "0.17"
inquire = "0.7"
owo-colors = "4"
prost = "0.13"
rand = "0.8"
ratatui = "0.29"
serde = { version = "1", features = ["derive"] }
serde_json = "1"
sha2 = "0.10"
thiserror = "1"
tokio = { version = "1", features = ["rt-multi-thread", "macros", "net", "sync", "time", "signal"] }
tokio-stream = "0.1"
tonic = "0.12"
tracing = "0.1"
tracing-subscriber = { version = "0.3", features = ["env-filter"] }
uuid = { version = "1", features = ["v4"] }
x25519-dalek = { version = "2", features = ["static_secrets"] }

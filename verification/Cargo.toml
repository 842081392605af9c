[package]
name = "rage"
version = "0.1.0"
edition = "2021"
publish = false

[dependencies]
age = "=0.11.5"
anyhow = "=1.0.104"
base64 = "=0.22.1"
bech32 = "=0.9.1"
clap = { version = "=4.6.7", features = ["derive"] }
crossterm = "=0.28.1"
dirs = "=5.0.1"
dotenvy = "=0.15.7"
ratatui = "=0.29.0"
reqwest = { version = "=0.12.28", default-features = false, features = ["blocking", "json", "rustls-tls"] }
serde = { version = "=1.0.229", features = ["derive"] }
serde_json = "=1.0.154"
toml = "=0.8.23"
x25519-dalek = "=2.0.1"

[package]
name = "pimalaya-config"
version = "0.1.0"
edition = "2021"
publish = false

[dependencies]
anyhow = "=1.0.104"
dirs = "=7.0.0"
log = "=0.4.35"
notify-rust = "=4.18.2"
secrecy = { version = "=0.10.3", features = ["serde"] }
serde = { version = "=1.0.229", features = ["derive"] }
shellexpand = "=3.1.2"
thiserror = "=2.0.21"
toml = "=1.1.8"

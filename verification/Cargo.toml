[package]
name = "harmonia"
version = "0.1.0"
edition = "2021"
publish = false

[dependencies]
base64 = "0.22"
bzip2-rs = "0.1"
ed25519-dalek = "2"
http-range = "0.1"
serde = { version = "1", features = ["derive"] }
toml = "0.8"

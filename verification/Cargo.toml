[package]
name = "pnet"
version = "0.1.0"
edition = "2021"
publish = false

[dependencies]
base64 = "0.22"
hmac = "0.12"
rand = "0.8"
serde = { version = "1", features = ["derive"] }
sha1 = "0.10"
toml = "0.8"

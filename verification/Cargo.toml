[package]
name = "sniproxy"
version = "0.1.0"
edition = "2021"
publish = false

[dependencies]
idna = "*"
blake2 = "*"
base64 = "*"
tokio = { version = "*", features = ["full"] }

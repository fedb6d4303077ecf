[package]
name = "nagisa-rs"
version = "0.1.0"
edition = "2021"
publish = false

[dependencies]
unicode-normalization = "0.1"
anyhow = "1"
ndarray = "*"
safetensors = "*"
serde = { version = "1", features = ["derive"] }
serde_json = "1"

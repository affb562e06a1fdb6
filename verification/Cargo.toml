[package]
name = "rustblog_core"
version = "0.1.0"
edition = "2021"
publish = false

[dependencies]
serde_json = "=1.0.154"
base64 = "=0.22.1"
bytes = "=1.12.1"
once_cell = "=1.21.4"
serde = { version = "=1.0.229", features = ["derive"] }
papaya = "*"
seize = "*"

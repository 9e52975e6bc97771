[package]
name = "graphshell"
version = "0.1.0"
edition = "2021"
publish = false

[dependencies]
base64 = "0.22"
blake3 = "1"
serde = { version = "1", features = ["derive"] }
serde_json = "1"
thiserror = "2"
uuid = { version = "1", features = ["v4", "v5", "serde"] }

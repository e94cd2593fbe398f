[package]
name = "glass"
version = "0.1.0"
edition = "2021"
publish = false

[dependencies]
redis = "=1.7.1"
rmp-serde = "=1.3.1"
serde = { version = "=1.0.229", features = ["derive"] }
serde_json = "=1.0.151"
serde_yaml = "=0.9.34"
uuid = { version = "=1.27.0", features = ["serde", "v4"] }

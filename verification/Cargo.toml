[package]
name = "ratio"
version = "0.1.0"
edition = "2021"
publish = false

[dependencies]
serde = { version = "=1.0.229", features = ["derive"] }
toml = "=0.8.23"
sha2 = "=0.10.9"
serde_json = "1"

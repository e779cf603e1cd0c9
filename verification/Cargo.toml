[package]
name = "arborio"
version = "0.1.0"
edition = "2021"
publish = false

[dependencies]
unsigned-varint = "=0.8.0"
nom-varint = "=0.5.0"
serde = { version = "=1.0.229", features = ["derive"] }
serde_yaml = "=0.9.34"

[dev-dependencies]
regex = "=1.13.1"

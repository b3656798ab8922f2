[package]
name = "q2api_core"
version = "0.1.0"
edition = "2021"
publish = false

[dependencies]
crc32c = "*"
hex = "*"
serde_json = "*"

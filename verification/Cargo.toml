[package]
name = "bedrock"
version = "0.1.0"
edition = "2021"
publish = false

[dependencies]
aes = "0.8"
base64 = "0.22"
cfb8 = "0.8"
ring = "0.17"
serde = { version = "1", features = ["derive"] }
serde_json = "1"
subtle = "2"
ureq = "3"

[package]
name = "slot"
version = "0.1.0"
edition = "2021"
publish = false

[dependencies]
httparse = "1"
pbkdf2 = "0.12"
sha1 = "0.10"
serde_json = "1"

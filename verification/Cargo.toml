[package]
name = "serde_hlua"
version = "0.1.0"
edition = "2021"
publish = false

[dependencies]
base64 = "0.13"
hlua = "0.4"
serde = "1"

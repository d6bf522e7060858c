[package]
name = "llsd"
version = "0.1.0"
edition = "2021"
publish = false

[dependencies]
anyhow = "*"
ascii85 = "*"
base64 = "*"
chrono = "*"
hex = "*"

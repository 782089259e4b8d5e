[package]
name = "xuan"
version = "0.1.0"
edition = "2021"
publish = false

[dependencies]
anyhow = "=1.0.104"
image = { version = "=0.25.10", default-features = false, features = ["png", "jpeg", "tiff", "webp"] }
uuid = { version = "=1.29.0", features = ["v4"] }

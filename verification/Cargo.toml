[package]
name = "watermark_remover"
version = "0.2.0"
edition = "2021"
publish = false

[dependencies]
dirs = "5"
serde_json = "1"
image = { version = "0.25", default-features = false, features = ["png", "jpeg", "webp", "bmp", "gif", "tiff"] }
rfd = { version = "0.15", default-features = false }

[package]
name = "tessera"
version = "0.1.0"
edition = "2021"
publish = false

[dependencies]
anyhow = "1"
base64 = "0.22"
clap = { version = "4", features = ["derive"] }
image = { version = "0.25", default-features = false, features = ["bmp", "gif", "jpeg", "png", "tiff", "webp"] }
ort = { version = "=2.0.0-rc.11", default-features = false, features = ["std", "load-dynamic"] }
png = "0.18"
rayon = "1"
serde = { version = "1", features = ["derive"] }

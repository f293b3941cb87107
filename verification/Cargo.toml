[package]
name = "ml_runner"
version = "0.1.0"
edition = "2021"
publish = false

[dependencies]
anyhow = "1"
clap = { version = "4", features = ["derive"] }
flate2 = "1"
image = { version = "0.25", default-features = false, features = ["bmp", "jpeg", "png", "tiff", "webp"] }
ndarray = "*"
ort = { version = "2.0.0-rc.10", default-features = false, features = ["load-dynamic", "ndarray", "std"] }
self-replace = "1"
serde = { version = "1", features = ["derive"] }
tar = "0.4"
ureq = { version = "2", features = ["json"] }
walkdir = "2"
zip = { version = "2", default-features = false, features = ["deflate"] }

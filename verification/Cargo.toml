[package]
name = "image_processor"
version = "0.1.0"
edition = "2021"
publish = false

[dependencies]
anyhow = "1"
chrono = "0.4"
clap = { version = "4", features = ["derive"] }
indicatif = "0.17"
kamadak-exif = "0.5"
mp4 = "0.14"
serde = { version = "1", features = ["derive"] }
serde_json = "1"
walkdir = "2"

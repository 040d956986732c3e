[package]
name = "reveal_lib"
version = "0.1.0"
edition = "2021"
publish = false

[dependencies]
serde = { version = "=1.0.229", features = ["derive"] }
serde_json = "=1.0.154"
chrono = "=0.4.45"
image = { version = "0.25", default-features = false, features = ["jpeg"] }
kamadak-exif = "0.6"

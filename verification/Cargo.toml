[package]
name = "starglyph"
version = "0.1.0"
edition = "2021"
publish = false

[dependencies]
anyhow = "=1.0.104"
base64 = "=0.22.1"
chrono = { version = "=0.4.45", default-features = false, features = ["std", "clock"] }
clap = { version = "=4.6.7", features = ["derive"] }
csv = "=1.4.0"
flate2 = "=1.1.10"
image = { version = "=0.25.10", default-features = false, features = ["png", "bmp", "jpeg", "tiff"] }
nalgebra = "=0.33.3"
rand = "=0.9.5"
rand_chacha = "=0.9.0"
serde = { version = "=1.0.229", features = ["derive"] }
serde_json = "=1.0.154"
sha2 = "=0.10.9"
thiserror = "=2.0.21"
vsop87 = "3"

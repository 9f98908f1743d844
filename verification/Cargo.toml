[package]
name = "minipdf"
version = "0.1.0"
edition = "2021"
publish = false

[dependencies]
comrak = { version = "0.39", default-features = false }
base64 = "0.22"
unicode-segmentation = "1"
oxidize-pdf = "*"
image = "0.24"
swash = "0.2"
uuid = { version = "1", features = ["v4"] }
serde = { version = "1", features = ["derive"] }
serde_json = "1"
log = "0.4"
env_logger = "0.11"
anyhow = "1"
tempfile = "3"

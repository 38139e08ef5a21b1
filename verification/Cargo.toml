[package]
name = "iconforge"
version = "0.1.0"
edition = "2021"
publish = false

[dependencies]
blake3 = "=1.8.7"
image = { version = "=0.25.10", default-features = false, features = ["png", "jpeg"] }
resvg = "=0.49.0"
vtracer = "=0.6.5"
visioncortex = "=0.8.10"
kurbo = "=0.13.1"
rayon = "=1.12.0"
rusqlite = { version = "*", features = ["bundled"] }
serde = { version = "=1.0.229", features = ["derive"] }
serde_json = "=1.0.154"

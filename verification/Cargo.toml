[package]
name = "krusty_club"
version = "0.1.0"
edition = "2021"
publish = false

[dependencies]
petgraph = "=0.8.3"
serde_json = "=1.0.154"
base64 = "=0.22.1"
image = { version = "=0.25.10", default-features = false, features = ["bmp", "dds", "exr", "ff", "gif", "hdr", "ico", "jpeg", "png", "pnm", "qoi", "tga", "tiff", "webp"] }
log = "=0.4.35"
rand = "=0.8.8"
serde = { version = "=1.0.229", features = ["derive"] }
toml = "=0.8.23"
eframe = { version = "=0.31.1", default-features = false, features = ["default_fonts", "glow", "x11"] }
env_logger = { version = "=0.11.11", default-features = false }
crossbeam-channel = "=0.5.17"

[package]
name = "edge_detect"
version = "0.1.0"
edition = "2021"
publish = false

[dependencies]
image = { version = "0.25", default-features = false, features = ["png", "jpeg", "bmp", "pnm", "rayon"] }
rayon = "1"
anyhow = "1"
clap = { version = "4", features = ["derive"] }

[package]
name = "sentrux"
version = "0.1.0"
edition = "2021"
publish = false

[dependencies]
clap = { version = "=4.6.7", features = ["derive"] }
dirs = "=6.0.0"
eframe = { version = "=0.31.1", default-features = false, features = ["glow", "wgpu", "x11", "wayland", "default_fonts"] }
egui = "=0.31.1"
quick-xml = "=0.37.5"
rayon = "=1.12.0"
serde_json = { version = "=1.0.154", features = ["float_roundtrip"] }
serde_yaml = "=0.9.34"
toml = "=0.8.23"

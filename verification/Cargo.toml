[package]
name = "data_visualizer"
version = "0.1.0"
edition = "2021"
publish = false

[dependencies]
csv = "=1.4.0"
serde_json = "=1.0.154"
serde = { version = "=1.0.229", features = ["derive"] }
eframe = { version = "=0.22.0", default-features = false, features = ["glow", "default_fonts", "persistence"] }
rfd = { version = "0.12", default-features = false, features = ["xdg-portal"] }
tracing-subscriber = "=0.3.23"

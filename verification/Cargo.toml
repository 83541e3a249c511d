[package]
name = "rusdle"
version = "0.1.0"
edition = "2021"
publish = false

[dependencies]
dirs = "6"
eframe = { version = "0.31", default-features = false, features = ["default_fonts", "glow", "x11"] }
rand = "0.8"
serde = { version = "1", features = ["derive"] }
serde_json = "1"

[package]
name = "fractal_flame"
version = "0.1.0"
edition = "2021"
publish = false

[dependencies]
ndarray = "=0.17.2"
nalgebra = "=0.35.0"
euclid = "=0.22.14"
rand = { version = "=0.10.3", features = ["chacha"] }
rayon = "=1.12.0"
env_logger = "=0.11.11"
eframe = { version = "=0.37.0", default-features = false, features = ["default_fonts", "glow", "x11"] }
egui_extras = "=0.37.0"

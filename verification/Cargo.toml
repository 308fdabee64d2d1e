[package]
name = "raytracer"
version = "0.1.0"
edition = "2021"
publish = false

[dependencies]
rand = "=0.9.5"
rayon = "=1.12.0"
image = { version = "=0.25.10", default-features = false, features = ["png", "gif", "rayon"] }

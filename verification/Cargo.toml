[package]
name = "raytracer"
version = "0.1.0"
edition = "2021"
publish = false

[dependencies]
itertools = "0.13"
rand = { version = "0.8", features = ["small_rng"] }

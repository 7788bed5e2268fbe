[package]
name = "planets"
version = "0.1.0"
edition = "2021"
publish = false

[dependencies]
ggez = { version = "0.9", default-features = false }
nalgebra = { version = "0.32", features = ["mint"] }
rand = "0.8"
rgb_hsv = "*"

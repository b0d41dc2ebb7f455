[package]
name = "ray_ruster"
version = "0.1.0"
edition = "2021"
publish = false

[dependencies]
nalgebra = "*"
regex = "*"
rand = "*"
image = { version = "*", default-features = false, features = ["png"] }

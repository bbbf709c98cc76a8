[package]
name = "voxels"
version = "0.1.0"
edition = "2021"
publish = false

[dependencies]
nalgebra = "0.22"
noise = { version = "0.6", default-features = false }
rgb = "0.8"
image = { version = "0.23", default-features = false, features = ["png"] }
glutin = "0.28"
gl = "0.14"

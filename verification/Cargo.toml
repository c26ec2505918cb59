[package]
name = "voxel_world"
version = "0.1.0"
edition = "2021"
publish = false

[dependencies]
glium = "0.36"
image = { version = "0.25", default-features = false, features = ["png"] }
nalgebra-glm = "0.19"
noise = "0.9"

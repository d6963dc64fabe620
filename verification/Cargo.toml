[package]
name = "particle_sim"
version = "0.1.0"
edition = "2021"
publish = false

[dependencies]
anyhow = "1"
app-surface = "0.3"
bytemuck = { version = "1", features = ["derive"] }
env_logger = "0.10"
glam = "0.24"
image = { version = "0.24", default-features = false, features = ["png", "jpeg"] }
instant = "0.1"
pollster = "0.3"
rand = "0.8"
tobj = { version = "4", features = ["async"] }
wgpu = "0.17"
winit = "0.28"

[package]
name = "voxelith"
version = "0.1.0"
edition = "2021"
publish = false

[dependencies]
wgpu = "29"
winit = "0.30"
glam = "0.33"
noise = "0.9"
bytemuck = { version = "1", features = ["derive"] }
serde = { version = "1", features = ["derive"] }
serde_json = "1"
crossbeam-channel = "0.5"
rayon = "1"
pollster = "*"
env_logger = "*"
log = "0.4"

[package]
name = "raycaster"
version = "0.1.0"
edition = "2021"
publish = false

[dependencies]
bincode = "1"
bytemuck = { version = "1", features = ["derive"] }
colored = "*"
env_logger = "*"
flate2 = "1"
gltf = "1"
image = { version = "0.25", default-features = false, features = ["png", "jpeg"] }
noise = "0.9"
pollster = "*"
rand = "*"
serde = { version = "1", features = ["derive"] }
wgpu = "*"
winit = "0.30"

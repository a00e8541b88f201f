[package]
name = "midpoint_foundry"
version = "0.1.0"
edition = "2021"
publish = false

[dependencies]
egui = "0.29"
egui-wgpu = "0.29"
egui-winit = { version = "0.29", default-features = false, features = ["wayland", "x11"] }
wgpu = "22"
winit = "0.30"
pollster = "0.3"
bytemuck = { version = "1", features = ["derive"] }
image = { version = "0.25", default-features = false, features = ["png"] }
env_logger = { version = "0.11", default-features = false }
log = "0.4"
rayon = "1"

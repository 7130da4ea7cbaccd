[package]
name = "pixelcraft"
version = "0.1.0"
edition = "2021"
publish = false

[dependencies]
ahash = "0.8"
glam = "0.29"
bytemuck = { version = "1", features = ["derive"] }
wgpu = "22"
winit = "0.30"
pollster = "0.3"
png = "0.17"
gif = "0.13"

[package]
name = "kiss3d"
version = "0.1.0"
edition = "2021"
publish = false

[dependencies]
wgpu = "=30.0.1"
bytemuck = { version = "=1.25.2", features = ["derive"] }
glamx = "=0.3.1"
image = { version = "=0.25.10", default-features = false, features = ["png", "hdr"] }
serde = { version = "=1.0.229", features = ["derive"] }

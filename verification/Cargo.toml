[package]
name = "vector_bench"
version = "0.1.0"
edition = "2021"
publish = false

[dependencies]
bytemuck = { version = "=1.25.2", features = ["derive"] }
pollster = "=0.3.0"
sysinfo = { version = "=0.30.13", default-features = false }
ttf-parser = "=0.21.1"
wgpu = { version = "=0.20.1", default-features = false, features = ["wgsl"] }

[package]
name = "piano_roll"
version = "0.1.0"
edition = "2021"
publish = false

[dependencies]
bytemuck = { version = "1", features = ["derive"] }
egui = { version = "=0.22.0", default-features = false }
egui-wgpu = { version = "=0.22.0", default-features = false }
egui-winit = { version = "=0.22.0", default-features = false }
pollster = "=0.3.0"
wgpu = { version = "=0.16.3", default-features = false, features = ["wgsl"] }
winit = { version = "=0.28.7", default-features = false, features = ["x11"] }

[dev-dependencies]
midly = "=0.5.3"

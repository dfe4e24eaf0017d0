[package]
name = "infinite_worlds"
version = "0.1.0"
edition = "2021"
publish = false

[dependencies]
anyhow = "=1.0.104"
arc-swap = "=1.9.3"
ash = "=0.38.0"
ash-window = "=0.13.0"
bytemuck = { version = "=1.25.2", features = ["derive"] }
crossbeam-channel = "=0.5.17"
egui = { version = "=0.36.2", default-features = false, features = ["default_fonts"] }
egui-ash-renderer = { version = "=0.13.0", features = ["gpu-allocator"] }
egui-winit = { version = "=0.36.2", default-features = false, features = ["x11"] }
glam = { version = "=0.34.2", features = ["serde"] }
gpu-allocator = { version = "=0.28.0", default-features = false, features = ["vulkan"] }
log = "=0.4.35"
postcard = { version = "=1.1.3", features = ["use-std"] }
rand = "=0.9.5"
rand_pcg = "=0.9.0"
raw-window-handle = "=0.6.2"
rayon = "=1.12.0"
rustc-hash = "=2.1.3"
serde = { version = "=1.0.229", features = ["derive"] }
smallvec = "=1.16.4"
winit = { version = "=0.30.13", default-features = false, features = ["rwh_06", "x11"] }
zstd = "=0.13.4"

[package]
name = "milkdrop_pi"
version = "0.1.0"
edition = "2021"
publish = false

[dependencies]
fontdue = "0.9"
bytemuck = { version = "1", features = ["derive"] }
clap = { version = "4", features = ["derive"] }
env_logger = "0.11"
log = "0.4"
pollster = "0.4"
ringbuf = "0.4"
rustfft = "6"
wgpu = { version = "23", default-features = false, features = ["wgsl"] }
winit = { version = "0.30", default-features = false, features = ["rwh_06", "x11"] }

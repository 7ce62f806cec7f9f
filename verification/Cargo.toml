[package]
name = "revlog"
version = "0.1.0"
edition = "2021"
publish = false

[dependencies]
chrono = "0.4"
env_logger = "0.7"
git2 = { version = "0.10", default-features = false }
shaderc = "0.6"
time = "0.1"
wgpu = "0.4"
wgpu_glyph = "0.6"
winit = "=0.20.0-alpha4"

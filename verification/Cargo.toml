[package]
name = "ecs_core"
version = "0.1.0"
edition = "2021"
publish = false

[dependencies]
nonmax = "0.5"
glam = "0.24"
bytemuck = "1"
thiserror = "1"
bitflags = "1"
wgpu = { version = "0.15", default-features = false }

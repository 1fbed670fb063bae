[package]
name = "apsp"
version = "0.1.0"
edition = "2021"
publish = false

[dependencies]
bytemuck = "1"
futures-intrusive = "0.5"
wgpu = "0.14"

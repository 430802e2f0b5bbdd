[package]
name = "rgbcx"
version = "0.1.2"
edition = "2021"
publish = false

[dependencies]
bytemuck = "1"
pollster = "*"
rayon = "1"
wgpu = "*"

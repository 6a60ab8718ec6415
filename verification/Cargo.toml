[package]
name = "asteroids"
version = "0.1.0"
edition = "2021"
publish = false

[dependencies]
bitflags = "2"
glam = "0.30"
rand = "0.9"
smallvec = "1"
vulkano = "0.35"
vulkano-shaders = "0.35"
winit = "0.30"

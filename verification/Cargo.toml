[package]
name = "latch"
version = "0.1.0"
edition = "2021"
publish = false

[dependencies]
anyhow = "1"
glam = "0.29"
libc = "0.2"
once_cell = "1"
rayon = "1"
thiserror = "1"
tracing = "0.1"
tracing-subscriber = "0.3"
winit = "0.30"

[package]
name = "qhull_rayon"
version = "0.2.0"
edition = "2021"
publish = false

[dependencies]
fxhash = "=0.2.1"
glam = { version = "=0.33.3", features = ["bytemuck"] }
bytemuck = "=1.25.2"
itertools = "=0.15.0"
rand = "=0.10.3"

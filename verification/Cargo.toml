[package]
name = "metal_kernels"
version = "0.1.0"
edition = "2021"
publish = false

[dependencies]
half = "2.3"
metal = "0.27"

[dev-dependencies]
rand = "0.8"

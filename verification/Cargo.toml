[package]
name = "checksum"
version = "0.1.0"
edition = "2021"
publish = false

[dependencies]
byteorder = "1"
bytemuck = "1"
wide = "*"
rand = { version = "0.9", features = ["small_rng"] }

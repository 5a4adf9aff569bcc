[package]
name = "vedelo"
version = "0.1.0"
edition = "2021"
publish = false

[dependencies]
hungarian = "*"
kornia-image = "*"
kornia-imgproc = "*"
ab_glyph = "*"
anyhow = "*"
clap = { version = "*", features = ["derive"] }
nalgebra = "*"
ndarray = "*"
tch = "*"
video-rs = "*"
opencv = "*"

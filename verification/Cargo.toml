[package]
name = "img_watermarking"
version = "0.1.0"
edition = "2021"
publish = false

[dependencies]
bitvec = "1"
image = { version = "0.25", default-features = false, features = ["png", "tiff"] }
rand = "0.9"
rand_chacha = "0.9"
rustdct = "0.7"
yuvutils-rs = "*"

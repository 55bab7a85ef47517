[package]
name = "slp_png_rs"
version = "0.1.0"
edition = "2021"
publish = false

[dependencies]
zlib-rs = "*"

[package]
name = "triangle"
version = "0.1.0"
edition = "2021"
publish = false

[dependencies]
image = "*"
rand = "*"

[dev-dependencies]
line_drawing = "*"

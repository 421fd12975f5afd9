[package]
name = "image_display"
version = "0.1.0"
edition = "2021"
publish = false

[dependencies]
ctrlc = "*"
image-convert = "*"
termsize = "*"

[package]
name = "lsr"
version = "0.1.0"
edition = "2021"
publish = false

[dependencies]
arrayvec = "0.5"
itoa = "1"
libc = "0.2"
unicode-segmentation = "1"

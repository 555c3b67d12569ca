[package]
name = "aseprite"
version = "0.1.0"
edition = "2021"
publish = false

[dependencies]
flate2 = "1"
image = { version = "0.25", default-features = false }
tiny-skia = { version = "0.11", default-features = false, features = ["std"] }

[package]
name = "thickline"
version = "0.1.0"
edition = "2021"
publish = false

[dependencies]
embedded-graphics = "*"
embedded-graphics-simulator = { version = "*", default-features = false }

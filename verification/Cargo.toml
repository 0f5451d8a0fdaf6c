[package]
name = "rust_poly"
version = "0.1.0"
edition = "2021"
publish = false

[dependencies]
nalgebra = "*"
num-complex = "*"
num-traits = "*"

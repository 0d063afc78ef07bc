[package]
name = "rustures"
version = "0.1.1"
edition = "2021"
publish = false

[dependencies]
nalgebra = "*"
numpy = "*"
pyo3 = { version = "*", features = ["abi3-py310"] }
thiserror = "*"

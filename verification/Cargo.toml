[package]
name = "convinterp"
version = "0.1.0"
edition = "2021"
publish = false

[dependencies]
numpy = "0.23"
pyo3 = { version = "0.23", features = ["abi3-py38"] }
wide = "0.7"

[package]
name = "trackforge"
version = "0.1.0"
edition = "2021"
publish = false

[dependencies]
pyo3 = { version = "0.27", features = ["abi3-py39", "extension-module"] }

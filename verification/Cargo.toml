[package]
name = "hermes"
version = "0.1.0"
edition = "2021"
publish = false

[dependencies]
cached = { version = "0.53", default-features = false }
pyo3 = { version = "0.22", features = ["extension-module", "abi3-py38"] }

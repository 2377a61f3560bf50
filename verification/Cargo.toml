[package]
name = "janlukas"
version = "0.1.0"
edition = "2021"
publish = false

[dependencies]
nalgebra = { version = "0.32", default-features = false, features = ["std"] }
ndarray = "0.15"
numpy = "0.20"
pyo3 = { version = "0.20", features = ["extension-module"] }

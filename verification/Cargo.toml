[package]
name = "hidalgo"
version = "0.1.0"
edition = "2021"
publish = false

[dependencies]
rayon = "1.10"
pyo3 = "0.22"
numpy = "0.22"

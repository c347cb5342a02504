[package]
name = "chess"
version = "0.1.0"
edition = "2021"

[dependencies]
colored = "2"
lazy_static = "1"
pyo3 = "*"
rayon = "1"
thiserror = "1"

[package]
name = "lorealdb"
version = "0.1.0"
edition = "2021"
publish = false

[dependencies]
crossbeam-channel = "*"
pyo3 = "*"
pythonize = "*"
redb = "*"
serde = "*"
serde_json = "*"
simd-json = "*"

[dev-dependencies]
tempfile = "*"

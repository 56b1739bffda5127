[package]
name = "fast_multipart_parser"
version = "0.1.0"
edition = "2021"
publish = false

[dependencies]
encoding_rs = "0.8"
percent-encoding = "2"
pyo3 = "0.18"
pythonize = "0.18"
regex = "1"
serde_json = "1"

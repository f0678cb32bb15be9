[package]
name = "plumber"
version = "1.1.0"
edition = "2021"
publish = false

[dependencies]
crossbeam-channel = "0.5"
float-ord = "0.3"
glam = "0.24"
image = { version = "0.24", default-features = false, features = ["png", "tga"] }
itertools = "0.10"
log = "0.4"
pyo3 = { version = "0.18", features = ["extension-module"] }
rgb = "0.8"
tracing = "0.1"
tracing-subscriber = "0.3"

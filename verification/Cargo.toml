[package]
name = "bot7685_ext"
version = "0.1.0"
edition = "2021"
publish = false

[dependencies]
image = { version = "*", default-features = false, features = ["png", "jpeg", "gif", "webp", "bmp"] }
pyo3 = { version = "*", features = ["extension-module"] }

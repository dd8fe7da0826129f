[package]
name = "xfingine"
version = "0.1.0"
edition = "2021"
publish = false

[dependencies]
serde = { version = "1", features = ["derive"] }
serde_json = "1"
thiserror = "1"
wasm-bindgen = "0.2"
js-sys = "0.3"
pyo3 = "0.22"
pythonize = "0.22"

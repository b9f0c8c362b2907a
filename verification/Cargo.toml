[package]
name = "simple_lanelet2"
version = "0.1.0"
edition = "2021"
publish = false

[dependencies]
pyo3 = "*"
wasm-bindgen = "0.2"
console_error_panic_hook = "0.1"

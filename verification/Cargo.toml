[package]
name = "galaxypad"
version = "0.1.0"
edition = "2021"
publish = false

[dependencies]
draw = "*"
js-sys = "*"
pyo3 = "*"
wasm-bindgen = { version = "*", features = ["serde-serialize"] }

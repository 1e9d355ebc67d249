[package]
name = "connection_string"
version = "0.2.0"
edition = "2021"
publish = false

[dependencies]
wasm-bindgen = "*"
js-sys = "*"

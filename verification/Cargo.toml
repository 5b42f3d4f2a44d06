[package]
name = "lod_cut"
version = "0.1.0"
edition = "2021"
publish = false

[dependencies]
ahash = "0.8"
half = "2"
glam = "0.30"
js-sys = "0.3"
wasm-bindgen = "0.2"

[dev-dependencies]
ordered-float = "5"

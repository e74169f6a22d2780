[package]
name = "geosplit"
version = "0.1.0"
edition = "2021"
publish = false

[dependencies]
const_soft_float = "=0.1.4"
wasm-bindgen = "=0.2.129"
js-sys = "=0.3.106"

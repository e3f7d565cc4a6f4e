[package]
name = "neco_editor"
version = "0.1.0"
edition = "2021"
publish = false

[dependencies]
regex = "=1.13.1"
neco-tree = "=0.1.0"
syntect = { version = "=5.3.0", default-features = false, features = ["default-fancy"] }
yaml-rust = "=0.4.5"
wasm-bindgen = "=0.2.130"
js-sys = "=0.3.107"

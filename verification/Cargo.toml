[package]
name = "js_arc"
version = "0.1.0"
edition = "2021"
publish = false

[dependencies]
async-channel = "2"
once_cell = "1"
wasm-bindgen = "0.2"
wasm-bindgen-futures = "0.4"
js-sys = "0.3"
web-sys = { version = "0.3", features = ["console", "Blob", "BlobPropertyBag", "Url"] }
async-std = "1"

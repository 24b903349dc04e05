[package]
name = "frameplay"
version = "0.1.0"
edition = "2021"
publish = false

[dependencies]
macroquad = "*"
uuid = "*"
wasm-bindgen = "*"
web-sys = { version = "*", features = ["CanvasRenderingContext2d"] }

[package]
name = "topo"
version = "0.1.0"
edition = "2021"
publish = false

[dependencies]
illicit = "1"
parking_lot = "0.11"
js-sys = "0.3"
wasm-bindgen = "0.2"
web-sys = { version = "0.3", features = ["Event", "EventTarget", "MouseEvent"] }

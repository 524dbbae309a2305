[package]
name = "osc_wasm"
version = "0.1.0"
edition = "2021"
publish = false

[dependencies]
serde = { version = "=1.0.229", features = ["derive"] }
tsify-next = "=0.5.6"
wasm-bindgen = "=0.2.129"

[dev-dependencies]
rosc = "=0.11.4"

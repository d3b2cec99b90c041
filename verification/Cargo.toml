[package]
name = "memexfs"
version = "0.1.0"
edition = "2021"
publish = false

[dependencies]
regex = "1"
glob-match = "0.2"
serde = { version = "1", features = ["derive"] }
serde_json = "1"
wasm-bindgen = "0.2"

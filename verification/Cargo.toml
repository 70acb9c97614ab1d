[package]
name = "igrep"
version = "0.1.0"
edition = "2021"
publish = false

[dependencies]
anyhow = "1"
base64 = "0.22"
clang = "2"
clap = { version = "4", features = ["derive"] }
colored = "2"
flate2 = "1"
rayon = "1"
regex-syntax = "0.8"
serde = { version = "1", features = ["derive"] }
serde_json = "1"
wasm-bindgen = "0.2"

[package]
name = "sazan"
version = "0.1.0"
edition = "2021"
publish = false

[dependencies]
image = { version = "0.24", default-features = false, features = ["png"] }
zip = { version = "0.6", default-features = false }
clap = { version = "4", features = ["derive"] }
wasm-bindgen = "0.2"

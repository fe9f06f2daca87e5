[package]
name = "puzzle15"
version = "0.1.0"
edition = "2021"
publish = false

[dependencies]
rand = "0.8"
anyhow = "1"
clap = { version = "4", features = ["derive"] }
yew = { version = "0.21", features = ["csr"] }
gloo = "0.11"
wasm-bindgen = "0.2"
web-sys = { version = "0.3", features = ["KeyboardEvent", "TouchEvent", "TouchList", "Touch"] }
wasm-logger = "0.2"

[package]
name = "quadratic_core"
version = "0.1.0"
edition = "2021"
publish = false

[dependencies]
bigdecimal = "0.4"
dashmap = "5"
htmlescape = "0.3"
regex = "1"
serde = { version = "1", features = ["derive"] }
serde_json = "1"
serde-wasm-bindgen = "0.6"
uuid = { version = "1", features = ["v4"] }
wasm-bindgen = "0.2"

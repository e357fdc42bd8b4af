[package]
name = "dataflow"
version = "0.1.0"
edition = "2021"
publish = false

[dependencies]
petgraph = "*"
serde = { version = "1", features = ["derive"] }
serde_derive = "1"
serde_json = "1"
tungstenite = "*"
wasm-bindgen = "*"
env_logger = "*"

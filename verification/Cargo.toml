[package]
name = "pcap-engine"
version = "0.1.0"
edition = "2021"
publish = false

[dependencies]
pcap-parser = "*"
serde = { version = "1", features = ["derive"] }
serde-wasm-bindgen = "*"
wasm-bindgen = "*"

[package]
name = "archive_engine"
version = "0.1.0"
edition = "2021"
publish = false

[dependencies]
chrono = { version = "0.4", default-features = false, features = ["alloc", "std"] }
bincode = "1"
serde = { version = "1", features = ["derive"] }
serde_json = "1"
flate2 = "1"
lazy_static = "1"
wasm-bindgen = "0.2"

[package]
name = "silero_rs"
version = "0.1.0"
edition = "2021"
publish = false

[dependencies]
anyhow = "1"
flume = "0.11"
hf-hub = { version = "0.4", default-features = false, features = ["ureq"] }
numpy = "0.25"
ort = { version = "=2.0.0-rc.10", default-features = false, features = ["std", "load-dynamic"] }
pyo3 = { version = "0.25", features = ["abi3-py39"] }

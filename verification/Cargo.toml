[package]
name = "unitok"
version = "0.1.0"
edition = "2021"
publish = false

[dependencies]
tiktoken-rs = "=0.12.1"
base64 = "=0.23.1"
fancy-regex = "=0.19.2"
tokenizers = { version = "=0.23.2", default-features = false, features = ["unstable_wasm"] }
serde = { version = "=1.0.229", features = ["derive"] }
serde_json = "=1.0.151"

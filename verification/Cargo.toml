[package]
name = "assemblyscript_source_map"
version = "0.1.0"
edition = "2021"
publish = false

[dependencies]
base64 = "0.22"
serde = { version = "1", features = ["derive"] }
serde_json = { version = "1", features = ["raw_value"] }
wasmparser = "*"

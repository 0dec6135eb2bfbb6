[package]
name = "kubesense_log_pattern"
version = "0.1.0"
edition = "2021"
publish = false

[dependencies]
base64 = "0.22"
futures = "0.3"
lru = "0.12"
serde = { version = "1", features = ["derive"] }
vrl = { version = "*", default-features = false, features = ["value", "path"] }
xxhash-rust = { version = "0.8", features = ["xxh3"] }

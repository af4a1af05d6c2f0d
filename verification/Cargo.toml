[package]
name = "rp_core"
version = "0.1.0"
edition = "2021"
publish = false

[dependencies]
sha2 = "=0.10.9"
serde = { version = "=1.0.229", features = ["derive"] }
serde_json = "=1.0.154"
serde_jcs = "=0.1.0"
jiff = { version = "0.2", default-features = false, features = ["std"] }

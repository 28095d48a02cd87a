[package]
name = "my-toolkit"
version = "0.1.0"
edition = "2021"
publish = false

[dependencies]
sonic-rs = "=0.3.17"
log = "=0.4.34"
serde = { version = "=1.0.229", features = ["derive"] }
serde_json = "=1.0.154"
chrono = "=0.4.45"
kafka = { version = "*", default-features = false }
rusqlite = { version = "*", features = ["bundled"] }

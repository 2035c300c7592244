[package]
name = "security_monitor"
version = "0.1.0"
edition = "2021"
publish = false

[dependencies]
axum = "0.7"
jsonschema = { version = "0.17", default-features = false }
serde = { version = "1", features = ["derive"] }
serde_json = "1"
sysinfo = "0.30"
tokio = { version = "1", features = ["full"] }
tracing = "0.1"
tracing-subscriber = "0.3"

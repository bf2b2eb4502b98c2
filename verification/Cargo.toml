[package]
name = "symposium"
version = "0.1.0"
edition = "2021"
publish = false

[dependencies]
anyhow = "1"
rmcp = { version = "*", features = ["server", "transport-io"] }
rquickjs = { version = "*", features = ["futures"] }
sacp = "*"
serde = { version = "1", features = ["derive"] }
serde_json = { version = "1", features = ["preserve_order"] }
tempfile = "3"
tokio = { version = "1", features = ["full"] }
tracing = "0.1"

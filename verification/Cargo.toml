[package]
name = "tool_bridge"
version = "0.1.0"
edition = "2021"
publish = false

[dependencies]
serde = { version = "=1.0.229", features = ["derive"] }
serde_json = "=1.0.151"
rmcp = { version = "=3.5.1", features = ["client", "transport-child-process"] }
tokio = { version = "=1.53.2", features = ["full"] }

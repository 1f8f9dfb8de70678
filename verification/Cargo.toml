[package]
name = "clap_mcp"
version = "0.1.0"
edition = "2021"
publish = false

[dependencies]
clap = "=4.6.7"
rmcp = { version = "=3.5.1", features = ["client", "transport-io", "transport-streamable-http-server", "transport-streamable-http-client-reqwest"] }
serde_json = "=1.0.151"
tokio = { version = "=1.53.2", features = ["full"] }
tokio-util = "=0.7.19"
axum = "=0.8.9"

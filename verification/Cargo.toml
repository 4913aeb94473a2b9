[package]
name = "mesh-file-share"
version = "0.1.0"
edition = "2021"
publish = false

[dependencies]
uuid = { version = "1", features = ["v4"] }
serde = { version = "1", features = ["derive"] }
serde_json = "1"
tokio = { version = "1", features = ["full"] }
axum = "0.7"
axum-server = { version = "0.7", features = ["tls-rustls"] }
futures = "0.3"
local-ip-address = "0.6"
rcgen = "0.13"
tokio-stream = { version = "0.1", features = ["sync"] }
tokio-util = { version = "0.7", features = ["io"] }
tower-http = { version = "0.5", features = ["cors", "fs"] }

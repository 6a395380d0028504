[package]
name = "llm_gateway"
version = "0.1.0"
edition = "2021"
publish = false

[dependencies]
anyhow = "*"
async-stream = "*"
axum = "*"
dotenvy = "*"
futures = "*"
redis = { version = "*", features = ["tokio-comp", "connection-manager"] }
reqwest = { version = "*", default-features = false, features = ["json", "stream", "rustls-tls"] }
serde = { version = "*", features = ["derive"] }
serde_json = "*"
tokio = { version = "*", features = ["full"] }
tokio-stream = { version = "*", features = ["io-util"] }
tokio-util = { version = "*", features = ["io"] }
tower = { version = "*", features = ["limit", "load-shed", "timeout", "util"] }
tower_governor = "*"

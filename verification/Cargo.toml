[package]
name = "matching_engine"
version = "0.1.0"
edition = "2021"
publish = false

[dependencies]
anyhow = "*"
chrono = "=0.4.45"
dashmap = "*"
dotenv = "*"
redis = { version = "=1.7.1", features = ["tokio-comp"] }
serde = { version = "*", features = ["derive"] }
serde_json = "*"
tokio = { version = "*", features = ["rt-multi-thread", "macros"] }
tracing = "*"
tracing-subscriber = "*"
uuid = { version = "=1.27.0", features = ["v4"] }

[package]
name = "undr9"
version = "0.1.0"
edition = "2021"
publish = false

[dependencies]
axum = "=0.7.9"
clap = { version = "4", features = ["derive"] }
crc32fast = "=1.5.4"
dashmap = "=6.2.1"
futures-util = "0.3"
hnsw-stable = "=0.10.1"
http = "=1.5.0"
im = "=15.1.0"
libc = "0.2"
opentelemetry = "*"
opentelemetry-otlp = { version = "*", features = ["grpc-tonic", "http-proto"] }
opentelemetry_sdk = "*"
serde = { version = "1", features = ["derive"] }
serde_json = "1"
tempfile = "3"
thiserror = "*"
tokio = { version = "1", features = ["full"] }
tracing = "0.1"
tracing-opentelemetry = "*"
tracing-subscriber = { version = "0.3", features = ["env-filter", "json"] }

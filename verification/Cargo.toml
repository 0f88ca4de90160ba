[package]
name = "kaas"
version = "0.1.0"
edition = "2021"
publish = false

[dependencies]
anyhow = "1"
arc-swap = "1"
async-trait = "0.1"
axum = "0.7"
base64 = "=0.22.1"
bytes = "=1.12.1"
chrono = "0.4"
dashmap = "=6.2.1"
futures = "0.3"
k8s-openapi = { version = "0.24", features = ["v1_32"] }
kube = { version = "0.98", default-features = false, features = ["client", "runtime", "derive"] }
opentelemetry = "0.27"
opentelemetry-otlp = { version = "0.27", default-features = false, features = ["metrics", "trace", "http-proto", "grpc-tonic", "reqwest-client"] }
opentelemetry_sdk = { version = "0.27", features = ["rt-tokio"] }
parking_lot = "0.12"
schemars = "0.8"
serde = { version = "1", features = ["derive"] }
serde_json = "=1.0.154"
sha1 = "=0.10.7"
thiserror = "1"
tokio = { version = "1", features = ["full"] }
tokio-util = "0.7"
tracing = "0.1"
twox-hash = { version = "=2.1.5", default-features = false, features = ["xxhash64"] }

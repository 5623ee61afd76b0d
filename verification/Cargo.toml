[package]
name = "axil_core"
version = "0.1.0"
edition = "2021"
publish = false

[dependencies]
chrono = { version = "=0.4.45", features = ["serde"] }
flate2 = "=1.1.10"
regex = "=1.13.1"
sha2 = "=0.10.9"
ulid = "=1.2.1"
serde = { version = "=1.0.229", features = ["derive"] }
serde_json = "=1.0.154"
thiserror = "=2.0.21"
parking_lot = "=0.12.5"
redb = "=3.1.3"
ureq = "=3.5.1"
opentelemetry = { version = "=0.33.1", default-features = false, features = ["trace", "metrics"] }
opentelemetry_sdk = { version = "=0.33.1", default-features = false, features = ["trace", "metrics"] }
opentelemetry-otlp = { version = "=0.33.1", default-features = false, features = ["trace", "metrics", "grpc-tonic"] }

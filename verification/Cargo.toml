[package]
name = "chat_search"
version = "0.1.0"
edition = "2021"
publish = false

[dependencies]
sha2 = "=0.10.9"
serde = { version = "=1.0.229", features = ["derive"] }
serde_json = "=1.0.154"
axum = "=0.7.9"
tokio = { version = "=1.54.1", features = ["full"] }
reqwest = { version = "=0.12.28", default-features = false, features = ["json", "rustls-tls"] }
qdrant-client = { version = "=1.20.0", default-features = false }
fastembed = { version = "=5.17.4", default-features = false, features = ["hf-hub-rustls-tls", "ort-load-dynamic"] }
futures = "=0.3.34"
async-trait = "=0.1.92"
thiserror = "=1.0.69"
tracing = "=0.1.44"
tracing-subscriber = { version = "=0.3.23", features = ["env-filter"] }

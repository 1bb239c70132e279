[package]
name = "sequential_combination"
version = "0.1.0"
edition = "2021"
publish = false

[dependencies]
anyhow = "=1.0.104"
serde = { version = "=1.0.229", features = ["derive"] }
serde_json = "=1.0.154"
serde_yaml = "=0.9.34"
tokio = { version = "=1.54.1", features = ["full"] }
tracing = "=0.1.44"
tracing-subscriber = { version = "=0.3.23", features = ["env-filter"] }
walkdir = "=2.5.0"
instant-distance = "=0.6.1"
fastembed = { version = "=4.9.1", default-features = false, features = ["ort-load-dynamic", "hf-hub-rustls-tls"] }
rmcp = "=0.1.5"

[dev-dependencies]
regex = "=1.13.1"

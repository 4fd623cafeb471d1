[package]
name = "scopesentry"
version = "0.1.0"
edition = "2021"
publish = false

[dependencies]
anyhow = "1"
axum = "0.7"
bson = "2"
chrono = "0.4"
hostname = "0.4"
ipnet = "2"
mongodb = "3"
redis = { version = "0.25", features = ["tokio-comp"] }
reqwest = { version = "0.12", default-features = false }
serde = { version = "1", features = ["derive"] }
serde_json = "1"
serde_yaml = "0.9"
tokio = { version = "1", features = ["full"] }
tracing = "0.1"
tracing-subscriber = { version = "0.3", features = ["env-filter"] }
trust-dns-resolver = "0.22"
url = "2"
urlencoding = "2"

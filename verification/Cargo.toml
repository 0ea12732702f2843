[package]
name = "iiif"
version = "0.1.0"
edition = "2021"
publish = false

[dependencies]
percent-encoding = "2"
sha2 = "0.10"
rand = "0.9"
chrono = { version = "0.4", default-features = false, features = ["clock", "std"] }
serde = { version = "1", features = ["derive"] }
serde_json = "1"
toml = "0.8"
axum = "0.8"
axum-server = { version = "0.7", features = ["tls-rustls"] }
tokio = { version = "1", features = ["full"] }
async-trait = "0.1"
futures = "0.3"
tracing = "0.1"
tracing-subscriber = { version = "0.3", features = ["env-filter"] }
tower-http = { version = "0.6", features = ["cors", "compression-gzip", "trace", "timeout"] }
tower_governor = "0.7"
metrics-exporter-prometheus = { version = "0.17", default-features = false }
httpdate = "1"
image = { version = "0.25", default-features = false, features = ["png", "jpeg", "gif", "webp", "tiff"] }
moka = { version = "0.12", features = ["sync"] }
thiserror = "2"
object_store = { version = "*", features = ["aws", "azure", "gcp", "http"] }

[package]
name = "routefilterd"
version = "0.1.0"
edition = "2021"
publish = false

[dependencies]
rpsl-rs = "=3.0.0"
file_type = "=0.8.11"
serde = { version = "=1.0.229", features = ["derive"] }
serde_json = "=1.0.154"
toml = "=1.1.8"
tokio = { version = "=1.54.1", features = ["full"] }
tokio-util = { version = "=0.7.20", features = ["io", "codec"] }
futures-util = "=0.3.34"
async-stream = "=0.3.6"
async-compression = { version = "=0.4.52", features = ["tokio", "gzip"] }
axum = "=0.8.9"
reqwest = { version = "=0.13.5", default-features = false, features = ["stream", "http2", "charset"] }
suppaftp = { version = "=12.2.1", features = ["tokio"] }
log = "=0.4.35"
thiserror = "=2.0.21"
nrtm-parser = { version = "=0.2.0", features = ["async-streaming"] }
re-delimiter-codec = "=0.1.1"

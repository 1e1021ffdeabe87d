[package]
name = "frame_store"
version = "0.1.0"
edition = "2021"
publish = false

[dependencies]
aes-gcm = "=0.10.3"
async-stream = "=0.3.6"
async-trait = "=0.1.92"
axum = "=0.8.9"
base64 = "=0.22.1"
blake3 = "=1.8.7"
bytes = "=1.12.1"
clap = { version = "=4.6.7", features = ["derive", "env"] }
dashmap = "=6.2.1"
futures-util = { version = "=0.3.34", features = ["sink"] }
indicatif = "=0.17.11"
md-5 = "=0.10.6"
rand = "=0.9.5"
reqwest = { version = "=0.12.28", default-features = false, features = ["json", "multipart", "rustls-tls", "socks", "stream"] }
s3s = "=0.13.0"
serde = { version = "=1.0.229", features = ["derive"] }
serde_json = "=1.0.154"
sqlx = { version = "=0.8.6", default-features = false, features = ["runtime-tokio", "sqlite"] }
tokio = { version = "=1.54.1", features = ["full"] }
tokio-stream = "=0.1.19"
toml = "=0.8.23"
tower-http = { version = "=0.6.11", features = ["cors"] }
uuid = { version = "=1.29.0", features = ["v4"] }

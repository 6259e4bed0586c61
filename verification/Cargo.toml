[package]
name = "whim_dav_proxy"
version = "0.1.0"
edition = "2021"
publish = false

[dependencies]
aes = "0.8"
aes-gcm = "0.10"
aes-gcm-siv = "0.11"
axum = "0.8"
base64 = "0.22"
bytes = "1"
chacha20 = "0.9"
chacha20poly1305 = "0.10"
clap = { version = "4", features = ["derive"] }
ctr = "0.9"
futures-util = "0.3"
rand = "0.9"
reqwest = { version = "0.12", default-features = false, features = ["rustls-tls", "stream"] }
serde = { version = "1", features = ["derive"] }
serde_yaml = "0.9"
sha2 = "0.10"
tokio = { version = "1", features = ["full"] }
tokio-util = "0.7"
tower-http = { version = "0.6", features = ["cors"] }
tracing = "0.1"
tracing-subscriber = { version = "0.3", features = ["env-filter", "json"] }
url = "2"

[package]
name = "relayfs"
version = "0.1.0"
edition = "2021"
publish = false

[dependencies]
anyhow = "1"
axum = { version = "*", features = ["ws"] }
base64 = "0.22"
clap = { version = "4", features = ["derive", "env"] }
fuser = "*"
futures = "0.3"
rand = "0.9"
rmcp = { version = "*", features = ["server", "macros", "transport-io", "transport-streamable-http-server"] }
rustls = { version = "0.23", default-features = false, features = ["ring", "std", "tls12", "logging"] }
serde = { version = "1", features = ["derive"] }
serde_json = "1"
tokio = { version = "1", features = ["full"] }
tokio-tungstenite = { version = "*", features = ["rustls-tls-webpki-roots"] }
tokio-util = "0.7"
tracing = "0.1"
tracing-subscriber = { version = "0.3", features = ["env-filter"] }

[package]
name = "itx"
version = "0.1.0"
edition = "2021"
publish = false

[dependencies]
k256 = { version = "0.13", features = ["ecdsa", "pem"] }
ecdsa = { version = "0.16", features = ["signing", "verifying", "pem"] }
rand = "0.8"
sha256 = { version = "1", default-features = false }
hex = "0.4"
uuid = { version = "1", features = ["v4", "serde"] }
chrono = { version = "0.4", features = ["serde"] }
bigdecimal = "0.4"
serde = { version = "1", features = ["derive"] }
serde_json = "1"
ciborium = "0.2"
redb = "2"
tokio = { version = "1", features = ["full"] }
axum = "0.7"
dashmap = "6"
anyhow = "1"
thiserror = "1"
argh = "0.1"
tracing = "0.1"

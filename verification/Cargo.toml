[package]
name = "libro_unificado"
version = "0.1.0"
edition = "2021"
publish = false

[dependencies]
arc-swap = "1"
core_affinity = "0.8"
crossbeam-channel = "0.5"
futures-util = "0.3"
hdrhistogram = { version = "7", default-features = false }
rustls = { version = "0.23", default-features = false, features = ["ring", "std", "tls12", "logging"] }
serde = { version = "1", features = ["derive"] }
serde_json = { version = "1", features = ["raw_value"] }
thiserror = "2"
tokio = { version = "1", features = ["rt-multi-thread", "macros", "net", "sync", "time", "signal", "io-util"] }
tokio-tungstenite = { version = "0.26", default-features = false, features = ["connect", "handshake", "rustls-tls-webpki-roots"] }
tracing = "0.1"
tracing-subscriber = { version = "0.3", default-features = false, features = ["fmt", "ansi"] }
ureq = { version = "2", default-features = false, features = ["tls"] }
webpki-roots = "0.26"

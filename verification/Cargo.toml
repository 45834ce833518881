[package]
name = "peer_overlay"
version = "0.1.0"
edition = "2021"
publish = false

[dependencies]
base64 = "*"
blake3 = "=1.8.7"
openssl = "=0.10.81"
rand = "=0.9.5"
tokio = { version = "=1.53.2", features = ["rt-multi-thread", "net", "io-util", "time", "sync", "macros"] }
chrono = "=0.4.45"
futures = "=0.3.34"

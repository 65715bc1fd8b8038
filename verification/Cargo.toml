[package]
name = "memechain"
version = "0.1.0"
edition = "2021"
publish = false

[dependencies]
sled = "=0.34.7"
sha2 = "=0.11.0"
ed25519-dalek = { version = "=3.0.0", features = ["rand_core"] }
rand = "=0.10.3"
uuid = { version = "=1.27.0", features = ["v4"] }
chrono = "=0.4.45"
serde = { version = "=1.0.229", features = ["derive"] }
serde_json = "=1.0.151"
axum = "=0.8.9"
tokio = { version = "=1.53.2", features = ["full"] }
clap = { version = "=4.6.7", features = ["derive"] }
toml = "=1.1.7"
tracing = "=0.1.44"
tracing-subscriber = "=0.3.23"

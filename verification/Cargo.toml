[package]
name = "sxdpi"
version = "1.2.0"
edition = "2021"
publish = false

[dependencies]
tokio = { version = "=1.54.1", features = ["sync", "rt-multi-thread", "net", "io-util", "time", "macros"] }
serde = { version = "=1.0.229", features = ["derive"] }
serde_json = "=1.0.154"
reqwest = { version = "=0.12.28", default-features = false, features = ["json", "rustls-tls"] }
dirs = "=5.0.1"
log = "=0.4.35"
env_logger = "=0.11.11"
libc = "=0.2.191"

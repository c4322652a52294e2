[package]
name = "focal-vector"
version = "0.1.0"
edition = "2021"
publish = false

[dependencies]
axum = "=0.8.9"
axum-server = { version = "=0.7.3", default-features = false, features = ["tls-rustls-no-provider"] }
cudarc = { version = "0.18", default-features = false, features = ["std", "driver", "cublas", "dynamic-loading", "cuda-12080"] }
memmap2 = "=0.9.12"
openraft = { version = "=0.9.25", features = ["serde", "storage-v2"] }
reqwest = { version = "=0.12.28", default-features = false, features = ["json", "rustls-tls"] }
rustls = { version = "=0.23.46", default-features = false, features = ["ring", "std", "tls12"] }
rustls-pki-types = { version = "=1.15.1", features = ["std"] }
serde = { version = "=1.0.229", features = ["derive"] }
serde_json = "=1.0.154"
tokio = { version = "=1.54.1", features = ["io-util", "macros", "net", "rt-multi-thread", "signal", "sync", "time"] }

[package]
name = "jjs-commons"
version = "0.1.0"
edition = "2021"
publish = false

[dependencies]
anyhow = "1"
base64 = "=0.13.1"
clap = "3.0"
dkregistry = { version = "=0.5.0", default-features = false, features = ["reqwest-rustls"] }
futures-util = "0.3"
http = "=0.2.12"
hyper = { version = "=0.13.10", features = ["stream"] }
k8s-openapi = { version = "0.9", features = ["v1_18"] }
once_cell = "1"
reqwest = { version = "0.10", default-features = false, features = ["stream"] }
serde = { version = "1", features = ["derive"] }
serde_json = "=1.0.154"
thiserror = "1"
tokio = { version = "0.2", features = ["full"] }
tokio-util = "0.6"
tower-util = "0.3"
tracing = "=0.1.44"
tracing-futures = "0.2"
triomphe = "0.1"
warp = { version = "0.2", default-features = false }

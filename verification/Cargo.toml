[package]
name = "kube-dns-rs"
version = "0.1.0"
edition = "2021"
publish = false

[dependencies]
hickory-server = { version = "=0.26.3", features = ["resolver", "tls-aws-lc-rs"] }
hickory-resolver = { version = "=0.26.3", features = ["tls-aws-lc-rs"] }
kube = { version = "=5.0.0", features = ["runtime", "derive"] }
k8s-openapi = { version = "=0.29.0", features = ["latest"] }
reqwest = "=0.13.5"
tokio = { version = "=1.54.1", features = ["full"] }
futures = "=0.3.34"
async-trait = "=0.1.92"
rayon = "=1.12.0"
clap = { version = "=4.6.7", features = ["derive"] }
config = { version = "=0.15.27", default-features = false, features = ["yaml"] }
serde = { version = "=1.0.229", features = ["derive"] }
schemars = "=1.2.3"
thiserror = "=2.0.21"
tracing = "=0.1.44"
tracing-subscriber = "=0.3.23"

[package]
name = "minipx"
version = "0.1.0"
edition = "2021"
publish = false

[dependencies]
anyhow = "=1.0.104"
clap = { version = "=4.6.7", features = ["derive"] }
hyper = { version = "=0.14.32", features = ["full"] }
hyper-reverse-proxy = "=0.5.1"
hyper-tls = "=0.5.0"
interprocess = "=2.4.4"
log = "=0.4.34"
notify = "=8.2.0"
pretty_env_logger = "=0.5.0"
rustls-acme = { version = "=0.15.4", features = ["tokio"] }
tokio = { version = "=1.53.2", features = ["full"] }
tokio-stream = { version = "=0.1.19", features = ["net"] }

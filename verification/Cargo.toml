[package]
name = "quic_transport_qa"
version = "0.1.0"
edition = "2021"
publish = false

[dependencies]
bytes = "=1.12.1"
env_logger = "=0.11.11"
futures = "=0.3.34"
libc = "=0.2.191"
log = "=0.4.35"
tentacle = { version = "=0.7.7", features = ["openssl-vendored"] }
tokio = { version = "=1.54.1", features = ["full"] }
tokio-util = "=0.7.13"

[package]
name = "exchange"
version = "0.1.0"
edition = "2021"
publish = false

[dependencies]
uuid = { version = "1", features = ["v4", "serde"] }
serde = { version = "1", features = ["derive"] }
serde_json = "1"
hyper = "0.12"
futures = "0.1"
log = "0.4"
env_logger = "0.6"
lazy_static = "1"

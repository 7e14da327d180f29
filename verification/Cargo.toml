[package]
name = "loki_sink"
version = "0.1.0"
edition = "2021"
publish = false

[dependencies]
chrono = "0.4"
futures = "0.3"
bytes = "1"
prost = "0.12"

[dev-dependencies]
serde_json = "1"

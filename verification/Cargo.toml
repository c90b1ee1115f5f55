[package]
name = "mqtt_storage"
version = "0.1.0"
edition = "2021"
publish = false

[dependencies]
queue-file = "*"
sled = "*"
dashmap = "*"
rand = "*"
tokio = { version = "*", features = ["full"] }
futures = "*"
anyhow = "*"

[dev-dependencies]
tempfile = "*"

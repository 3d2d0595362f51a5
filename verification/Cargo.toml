[package]
name = "kvs"
version = "0.1.0"
edition = "2021"
publish = false

[dependencies]
clap = { version = "4", features = ["derive"] }
env_logger = "*"
log = "*"
serde = { version = "1", features = ["derive"] }
serde_json = "1"
sled = "*"

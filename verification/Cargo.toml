[package]
name = "pfollow"
version = "0.1.0"
edition = "2021"
publish = false

[dependencies]
ndarray = "*"
serde = { version = "1", features = ["derive"] }
serde_json = "1"
log = "0.4"
env_logger = "*"
lazy_static = "1"
chrono = "0.4"
ctrlc = "3"
zmq = "*"

[package]
name = "netsync"
version = "0.1.0"
edition = "2021"
publish = false

[dependencies]
env_logger = "0.11"
log = "0.4"
uuid = { version = "1", features = ["v4"] }

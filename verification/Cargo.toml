[package]
name = "rache"
version = "0.1.0"
edition = "2021"
publish = false

[dependencies]
serde = { version = "*", features = ["derive"] }
rmp-serde = "*"
tokio = { version = "*", features = ["net", "rt-multi-thread", "io-util", "macros"] }
log = "*"
env_logger = "*"

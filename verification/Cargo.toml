[package]
name = "zipdefrag"
version = "0.1.0"
edition = "2021"
publish = false

[dependencies]
chrono = { version = "0.4", default-features = false }
cogset = "*"
env_logger = "*"
log = "0.4"

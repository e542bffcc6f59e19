[package]
name = "obfsct"
version = "0.1.0"
edition = "2021"
publish = false

[dependencies]
toml = "*"
uuid = { version = "*", features = ["v4"] }
clap = { version = "*", features = ["derive"] }
ignore = "*"
env_logger = "*"
log = "*"

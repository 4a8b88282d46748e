[package]
name = "rgit"
version = "0.1.0"
edition = "2021"
publish = false

[dependencies]
rust-crypto = "*"
flate2 = "*"
clap = { version = "3", features = ["derive"] }
configparser = "*"
anyhow = "*"
log = "*"
env_logger = "*"

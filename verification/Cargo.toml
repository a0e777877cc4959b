[package]
name = "rustc_alias"
version = "0.1.0"
edition = "2021"
publish = false

[dependencies]
env_logger = "*"

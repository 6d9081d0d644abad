[package]
name = "mdbash"
version = "0.1.0"
edition = "2021"
publish = false

[dependencies]
mdbook = "0.4"
env_logger = "0.11"

[package]
name = "flash_read"
version = "0.1.0"
edition = "2021"
publish = false

[dependencies]
probe-rs-target = "*"
tracing = "*"

[package]
name = "pdf417"
version = "0.1.0"
edition = "2021"
publish = false

[dev-dependencies]
awint_core = "*"

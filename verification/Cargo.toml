[package]
name = "memhook"
version = "0.1.0"
edition = "2021"
publish = false

[dependencies]
libmem = { version = "=5.1.4", default-features = false }

[package]
name = "rustfx"
version = "0.1.0"
edition = "2021"
publish = false

[dependencies]
libc = "0.2"
log = "0.4"
env_logger = { version = "*", default-features = false }

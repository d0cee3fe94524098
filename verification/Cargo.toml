[package]
name = "netflector"
version = "0.1.0"
edition = "2021"
publish = false

[dependencies]
libc = "=0.2.191"
log = { version = "=0.4.35", features = ["std"] }
serde = "1"
toml = "=1.1.8"

[package]
name = "mini_sgbd"
version = "0.1.0"
edition = "2021"
publish = false

[dependencies]
bytebuffer = "=2.3.0"
bincode = "=1.3.3"
serde = { version = "=1.0.229", features = ["derive"] }
serde_json = "=1.0.154"
fancy-regex = "=0.20.0"

[package]
name = "renzora_plugins"
version = "0.1.0"
edition = "2021"
publish = false

[dependencies]
serde = { version = "1", features = ["derive"] }
serde_json = "1"
vt100 = "0.16"
portable-pty = "*"
tracy-client = "*"

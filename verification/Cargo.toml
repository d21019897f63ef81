[package]
name = "usbloom"
version = "0.1.0"
edition = "2021"
publish = false

[dependencies]
cyme = "=3.0.2"
nusb = "*"
anyhow = "*"
serde = { version = "*", features = ["derive"] }
serde_json = "*"
tempfile = "*"
futures-lite = "*"

[package]
name = "zaohelper"
version = "0.1.0"
edition = "2021"
publish = false

[dependencies]
anyhow = "*"
bincode = "=2.0.1"
log = "*"
serde = { version = "*", features = ["derive"] }
serde_json = "*"
serde-xml-rs = "*"
sonogram = "=0.7.3"
symphonia = "=0.5.5"
tempfile = "*"

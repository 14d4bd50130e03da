[package]
name = "phonikud-rs"
version = "0.1.0"
edition = "2021"
publish = false

[dependencies]
regex = "=1.13.1"
serde_json = "=1.0.154"
anyhow = "=1.0.104"
tokenizers = "=0.23.2"
ort = { version = "=2.0.0-rc.15", default-features = false, features = ["std", "load-dynamic"] }

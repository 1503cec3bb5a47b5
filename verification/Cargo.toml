[package]
name = "taghint"
version = "0.1.0"
edition = "2021"
publish = false

[dependencies]
csv = "=1.4.0"
regex = "=1.13.1"
simsearch = "=0.2.5"
serde = { version = "=1.0.229", features = ["derive"] }
serde_json = "=1.0.151"
reqwest = { version = "=0.13.5", default-features = false, features = ["query"] }
futures = "=0.3.34"

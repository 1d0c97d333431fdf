[package]
name = "bittorrent"
version = "0.1.0"
edition = "2021"
publish = false

[dependencies]
hex = "0.4"
sha1 = "0.10"
rand = "0.8"
serde_json = "1"
reqwest = { version = "0.12", default-features = false, features = ["blocking"] }

[package]
name = "hash_dedup"
version = "0.1.0"
edition = "2021"
publish = false

[dependencies]
md-5 = "*"
sha1 = "*"
sha2 = "*"
serde = { version = "*", features = ["derive"] }
serde_json = "*"

[package]
name = "codex_patch"
version = "0.1.0"
edition = "2021"
publish = false

[dependencies]
regex = "1"
serde = { version = "1", features = ["derive"] }
serde_json = "1"
sha2 = "0.10"
url = "2"
uuid = { version = "1", features = ["v4"] }
log = "0.4"

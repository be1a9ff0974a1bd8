[package]
name = "capglyph"
version = "0.1.0"
edition = "2021"
publish = false

[dependencies]
hmac = "0.12"
sha2 = "0.10"
digest = "0.10"
base64 = "0.22"
hex = "0.4"
chacha20poly1305 = "0.10"
rand = "0.8"
anyhow = "1"
serde = { version = "1", features = ["derive"] }
serde_json = "1"
uuid = { version = "1", features = ["v4"] }
image = { version = "0.25", default-features = false, features = ["png", "jpeg"] }
clap = { version = "4", features = ["derive"] }

[dev-dependencies]
ciborium = "0.2"
serde_bytes = "0.11"

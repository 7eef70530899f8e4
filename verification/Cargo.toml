[package]
name = "apollo-core"
version = "2.0.0"
edition = "2021"
publish = false

[dependencies]
serde = { version = "=1.0.229", features = ["derive"] }
serde_json = "=1.0.154"
anyhow = "=1.0.104"
uuid = { version = "=1.29.0", features = ["v4"] }
sha2 = "=0.10.9"
hex = "=0.4.3"
hmac = "=0.12.1"
base64 = "=0.22.1"
aes-gcm = "=0.10.3"
clap = { version = "=4.6.7", features = ["derive", "env"] }
colored = "=2.2.0"
which = "*"
jsonwebtoken = { version = "10", default-features = false, features = ["rust_crypto"] }
reqwest = { version = "0.12", default-features = false, features = ["blocking", "json"] }

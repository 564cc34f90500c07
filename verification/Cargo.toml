[package]
name = "terror"
version = "0.1.0"
edition = "2021"
publish = false

[dependencies]
bytes = "1"
sha1 = "0.10"
hex = "0.4"
serde = { version = "1", features = ["derive"] }
serde_bytes = "0.11"
serde_bencode = "0.2"
serde_json = "1"
serde_urlencoded = "0.7"
tokio = { version = "1", features = ["full"] }
tokio-util = { version = "0.7", features = ["codec"] }
futures-util = { version = "0.3", features = ["sink"] }
kanal = "*"
reqwest = { version = "0.12", default-features = false }
uuid = { version = "1", features = ["v4"] }
anyhow = "1"
tracing = "0.1"
tracing-subscriber = "0.3"
log = "0.4"

[package]
name = "dht-crawler"
version = "0.1.0"
edition = "2021"
publish = false

[dependencies]
ahash = "0.8"
bloomfilter = "1"
bytes = "1"
hex = "0.4"
jni = "0.21"
log = "0.4"
rand = "0.8"
rbit = "*"
serde = { version = "1", features = ["derive"] }
serde_bencode = "0.2"
serde_bytes = "0.11"
sha1 = "0.10"
socket2 = { version = "0.5", features = ["all"] }
thiserror = "2"
tokio = { version = "1", features = ["full"] }
tokio-util = "0.7"

[package]
name = "netbaiot_mqtt"
version = "0.1.0"
edition = "2021"
publish = false

[dependencies]
bytes = "1"
sha2 = "0.10"
serde = { version = "1", features = ["derive"] }
serde_json = "1"
tokio = { version = "1", default-features = false, features = ["io-util", "time", "sync", "rt", "macros"] }
tokio-util = "0.7"

[package]
name = "albion_translator"
version = "0.1.0"
edition = "2021"
publish = false

[dependencies]
chrono = { version = "0.4", default-features = false, features = ["clock", "std"] }
serde = { version = "1", features = ["derive"] }
serde_json = "1"
thiserror = "1"
dirs = "5"
tokio = { version = "1", features = ["sync", "rt-multi-thread", "macros", "time"] }
tracing = "0.1"
tracing-subscriber = { version = "0.3", features = ["env-filter"] }
urlencoding = "2"
anyhow = "1"
pcap = "2"
reqwest = { version = "0.12", default-features = false, features = ["json", "rustls-tls"] }
rusqlite = "0.32"
lingua = { version = "1.7", default-features = false, features = ["english", "spanish", "portuguese", "french", "german", "russian", "chinese", "japanese", "korean", "turkish", "arabic", "thai", "polish", "ukrainian", "italian", "vietnamese", "indonesian"] }

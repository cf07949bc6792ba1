[package]
name = "sloop"
version = "0.1.0"
edition = "2021"
publish = false

[dependencies]
anyhow = "1"
arrow = "*"
arrow-schema = "*"
chrono = "0.4"
clap = { version = "4", features = ["derive"] }
futures = "0.3"
notify-debouncer-full = "*"
ort = { version = "2.0.0-rc.11", default-features = false, features = ["std", "load-dynamic"] }
reqwest = { version = "0.12", default-features = false, features = ["charset", "http2", "json", "rustls-tls-native-roots", "stream"] }
serde = { version = "1", features = ["derive"] }
serde_json = "1"
sha2 = "0.10"
tokenizers = { version = "*", default-features = false, features = ["onig"] }
tokio = { version = "1", features = ["rt-multi-thread", "macros", "net", "io-util", "sync", "time", "signal"] }
tracing = "0.1"
tracing-subscriber = { version = "0.3", features = ["env-filter"] }
walkdir = "2"

[package]
name = "relayer"
version = "0.1.0"
edition = "2021"
publish = false

[dependencies]
base64 = "*"
bloom = "*"
chacha20poly1305 = "*"
chrono = "*"
dashmap = "*"
lru = "*"
rand = "*"
rocksdb = "*"
sha2 = "*"
anyhow = "*"
deadpool-postgres = "*"
flume = "*"
reqwest = { version = "*", default-features = false, features = ["json"] }
serde = { version = "*", features = ["derive"] }
serde_json = "*"
tokio = { version = "*", features = ["rt-multi-thread", "macros", "net", "time", "signal", "io-util", "sync"] }
tokio-postgres = "*"
toml = "*"

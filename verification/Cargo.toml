[package]
name = "resp_store"
version = "0.1.0"
edition = "2021"
publish = false

[dependencies]
serde_json = "1"
serde = { version = "1", features = ["derive"] }
tokio = { version = "1", features = ["net", "io-util", "sync", "rt-multi-thread", "macros", "time"] }
bytes = "1"
log = "0.4"
env_logger = "*"
thiserror = "*"
config = { version = "*", default-features = false, features = ["toml"] }

[package]
name = "hatchdoor_vault"
version = "0.1.0"
edition = "2021"
publish = false

[dependencies]
getrandom = "0.3"
ignore = "0.4"
libc = "0.2"
reqwest = { version = "0.12", default-features = false, features = ["rustls-tls"] }
roxmltree = "0.20"
serde = { version = "1", features = ["derive"] }
serde_json = "1"
serde_yaml_ng = "0.10"
tokio = { version = "1", features = ["rt-multi-thread", "sync", "time", "macros"] }
tracing = "0.1"
unicode-normalization = "0.1"
walkdir = "2"

[dev-dependencies]
tempfile = "3"

[package]
name = "combat_log_analyzer"
version = "0.1.0"
edition = "2021"
publish = false

[dependencies]
chrono = "=0.4.45"
log = "=0.4.35"
rustc-hash = "*"
smallvec = "=1.16.4"
serde = { version = "=1.0.229", features = ["derive"] }
serde_json = "=1.0.154"

[package]
name = "squire"
version = "0.1.0"
edition = "2021"
publish = false

[dependencies]
serde = { version = "=1.0.229", features = ["derive"] }
serde_json = "=1.0.154"
toml = "=0.8.23"
uuid = { version = "=1.29.0", features = ["v4"] }
chrono = { version = "=0.4.45", default-features = false, features = ["clock", "std"] }
async-trait = "=0.1.92"
futures = "=0.3.34"
log = "=0.4.35"
thiserror = "=1.0.69"
tokio = { version = "=1.54.1", features = ["sync", "rt", "macros", "time"] }
tracing = "=0.1.44"
reqwest = { version = "0.12", default-features = false, features = ["json", "stream"] }
notify = "6"

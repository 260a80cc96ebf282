[package]
name = "mauve"
version = "0.1.0"
edition = "2021"
publish = false

[dependencies]
clap = { version = "4", features = ["derive"] }
dashmap = "6"
figment = { version = "0.10", features = ["yaml"] }
flume = "0.11"
log = "0.4"
rocket = { version = "0.5", features = ["json"] }
serde = { version = "1", features = ["derive"] }
serde_json = "1"
simplelog = "0.12"
sled = "0.34"
thiserror = "1"
tokio = { version = "1", features = ["rt-multi-thread", "macros", "time"] }

[dev-dependencies]
ciborium = "0.2"

[package]
name = "devlog"
version = "0.1.0"
edition = "2021"
publish = false

[dependencies]
chrono = "*"
tokio = { version = "*", features = ["full"] }
clap = { version = "*", features = ["derive"] }

[dev-dependencies]
serde_json = "*"

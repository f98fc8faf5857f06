[package]
name = "things_report"
version = "0.1.0"
edition = "2021"
publish = false

[dependencies]
anyhow = "1"
chrono = { version = "0.4", features = ["serde"] }
clap = { version = "4", features = ["derive"] }
osascript = "0.3"
rand = "0.8"
serde = { version = "1", features = ["derive"] }
serde_json = "1"

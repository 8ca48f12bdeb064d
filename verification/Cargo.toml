[package]
name = "issue_history"
version = "0.1.0"
edition = "2021"
publish = false

[dependencies]
chrono = "*"
serde_json = "*"
reqwest = { version = "*", default-features = false, features = ["blocking"] }

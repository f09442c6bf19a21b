[package]
name = "tasktree"
version = "0.1.0"
edition = "2021"
publish = false

[dependencies]
ansi_term = "0.12"
chrono = "0.4"
serde = { version = "1.0", features = ["derive"] }
serde_json = "1.0"

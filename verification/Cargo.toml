[package]
name = "wordrember"
version = "0.1.0"
edition = "2021"
publish = false

[dependencies]
serde = { version = "1", features = ["derive"] }
serde_json = "1"
rusqlite = { version = "0.41", features = ["bundled"] }
log = "0.4"
env_logger = "0.11"
dirs = "7"

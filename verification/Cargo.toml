[package]
name = "wanna"
version = "0.1.0"
edition = "2021"
publish = false

[dependencies]
anyhow = "1"
axum = "0.8"
chrono = "0.4"
crossterm = "0.28"
dirs = "*"
futures-util = "0.3"
include_dir = "0.7"
mime_guess = "2"
ratatui = "0.29"
reqwest = { version = "0.12", features = ["blocking", "json"] }
rusqlite = { version = "*", features = ["bundled"] }
serde = { version = "1", features = ["derive"] }
serde_json = "1"
tokio = { version = "1", features = ["full"] }
tokio-stream = { version = "0.1", features = ["sync"] }
toml = "*"
unicode-width = "*"
uuid = { version = "1", features = ["v4", "v5", "v7"] }

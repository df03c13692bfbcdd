[package]
name = "task_tree"
version = "0.1.0"
edition = "2021"
publish = false

[dependencies]
chrono = "=0.4.45"
serde = { version = "=1.0.229", features = ["derive"] }
serde_json = "=1.0.151"
dirs = "=7.0.0"
ratatui = "=0.29.0"
crossterm = "=0.28.1"
tui-textarea = "0.7"

[package]
name = "spout"
version = "0.1.0"
edition = "2021"
publish = false

[dependencies]
serde = { version = "1", features = ["derive"] }
serde_json = "1"
serde_yaml_ng = "*"
unicode-width = "*"
dirs = "*"
fd-lock = "*"
tempfile = "3"
clap = { version = "4", features = ["derive"] }
clap_complete = "4"
ratatui = "*"
thiserror = "*"
tracing = "0.1"
tracing-subscriber = { version = "0.3", features = ["env-filter"] }

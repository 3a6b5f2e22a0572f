[package]
name = "marcterm"
version = "0.1.0"
edition = "2021"
publish = false

[dependencies]
serde = { version = "1", features = ["derive"] }
serde_json = "1"
toml = "*"
dirs = "*"
clap = { version = "4", features = ["derive"] }
gix = "*"
tracing = "0.1"
tracing-subscriber = { version = "0.3", features = ["env-filter"] }
blocking = "1"
futures = "0.3"
libc = "0.2"

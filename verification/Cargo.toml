[package]
name = "shep-log-rotate"
version = "0.1.7"
edition = "2021"
publish = false

[dependencies]
shep-client = "0.7.3"
serde = { version = "1", features = ["derive"] }
schemars = "1"
toml = "*"
tokio = { version = "1", features = ["rt", "macros", "time", "signal", "sync"] }
flate2 = "1"

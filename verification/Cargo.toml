[package]
name = "scheduler"
version = "0.1.0"
edition = "2021"
publish = false

[dependencies]
uuid = { version = "*", features = ["v4"] }
chrono = "*"
crossterm = "*"
ratatui = "*"
sysinfo = "*"
tracing = "*"
tracing-appender = "*"
tracing-subscriber = "*"

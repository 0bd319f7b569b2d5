[package]
name = "daily_rolling_appender"
version = "0.1.0"
edition = "2021"
publish = false

[dependencies]
time = "*"
tracing-subscriber = "*"

[package]
name = "smorgasbord"
version = "0.1.0"
edition = "2021"
publish = false

[dependencies]
anyhow = "=1.0.104"
crossterm = "=0.29.0"
fastrand = "=2.5.0"
network-tables = { version = "=0.1.3", features = ["client-v4"] }
ratatui = "=0.30.2"
thiserror = "=1.0.69"
tokio = { version = "=1.53.2", features = ["rt-multi-thread", "macros", "sync", "time"] }
tracing = "=0.1.44"
tracing-subscriber = "=0.3.23"
tui-input = "=0.15.5"

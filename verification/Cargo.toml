[package]
name = "serf"
version = "0.1.0"
edition = "2021"
publish = false

[dependencies]
rand = "0.8"
tokio = { version = "1", features = ["full"] }
clap = { version = "4", features = ["derive"] }
local-ip-address = "*"
tracing = "0.1"
tracing-subscriber = "*"

[package]
name = "panoptidns"
version = "0.1.0"
edition = "2021"
publish = false

[dependencies]
arc-swap = "*"
async-trait = "*"
clap = { version = "*", features = ["derive", "env"] }
futures-util = "*"
governor = "*"
hickory-proto = "*"
hickory-resolver = "*"
hickory-server = "*"
socket2 = { version = "*", features = ["all"] }
tokio = { version = "*", features = ["full"] }
tracing = "*"
tracing-subscriber = { version = "*", features = ["env-filter", "json"] }

[dev-dependencies]
ipnet = "*"

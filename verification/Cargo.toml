[package]
name = "ping_sweep"
version = "0.1.0"
edition = "2021"
publish = false

[dependencies]
tokio = { version = "1", features = ["rt-multi-thread", "macros", "fs", "io-util", "sync", "time"] }
surge-ping = "0.8"
clap = { version = "4", features = ["derive"] }

[dev-dependencies]
ipnet = "2"
iprange = "0.6"

[package]
name = "spider"
version = "0.1.0"
edition = "2021"
publish = false

[dependencies]
url = "2"
robotstxt = "0.3"
scraper = "*"
regex = "1"
ipnet = "2"
reqwest = { version = "0.12", default-features = false, features = ["rustls-tls"] }
tokio = { version = "1", features = ["rt-multi-thread", "macros", "net", "fs", "time", "sync"] }
clap = { version = "4", features = ["derive"] }
tracing = "0.1"
tracing-subscriber = "0.3"
anyhow = "1"

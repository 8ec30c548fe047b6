[package]
name = "qingjian-fcitx5"
version = "0.1.0"
edition = "2021"
publish = false

[dependencies]
dotenvy = "0.15"
tracing = "0.1"
tracing-appender = "0.2"
tracing-subscriber = { version = "0.3", features = ["env-filter", "fmt"] }

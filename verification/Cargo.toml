[package]
name = "wireguard_exporter"
version = "0.1.0"
edition = "2021"
publish = false

[dependencies]
base64 = "=0.13.1"
prometheus = "=0.14.0"
maxminddb = "=0.17.3"
time = "=0.3.55"
clap = { version = "=4.6.7", features = ["derive"] }
color-eyre = "=0.6.5"
tokio = { version = "=1.53.2", features = ["macros", "rt", "signal", "time", "process"] }
prometheus-hyper = "=0.2.1"
tracing = "=0.1.44"
tracing-subscriber = "=0.3.23"

[package]
name = "dns_forwarder"
version = "0.1.0"
edition = "2021"
publish = false

[dependencies]
chrono = "0.4"
clap = { version = "4", features = ["derive"] }
crossterm = "0.28"
lazy_static = "1"
prometheus = "0.13"
ratatui = "0.29"
reqwest = { version = "0.12", default-features = false, features = ["rustls-tls"] }
sysinfo = "0.32"
tokio = { version = "1", features = ["full"] }
warp = "0.3"

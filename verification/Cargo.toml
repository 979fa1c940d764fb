[package]
name = "mview"
version = "0.1.0"
edition = "2021"
publish = false

[dependencies]
anstyle = "=1.0.14"
anyhow = "=1.0.104"
chrono = "=0.4.45"
clap = { version = "=4.6.7", features = ["cargo"] }
crossbeam = "=0.8.5"
crossterm = "=0.29.0"
pcap-parser = { version = "=0.17.0", features = ["serialize"] }

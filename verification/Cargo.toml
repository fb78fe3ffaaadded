[package]
name = "p2p"
version = "0.1.0"
edition = "2021"
publish = false

[dependencies]
clap = { version = "=3.2.25", features = ["derive"] }
env_logger = "=0.8.4"
futures-util = "=0.3.34"
hyper = "=0.13.10"
isahc = "=0.9.14"
log = "=0.4.35"
once_cell = "=1.21.4"
tokio = { version = "=0.2.25", features = ["full"] }

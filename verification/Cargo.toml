[package]
name = "pink_lady"
version = "0.1.0"
edition = "2021"
publish = false

[dependencies]
clap = { version = "4", features = ["derive"] }
dotenv = "0.15"
env_logger = "0.10"
hyper = { version = "0.14", features = ["http1", "server", "tcp"] }
log = "0.4"
prometheus-client = "0.21"
tokio = { version = "1", features = ["macros", "rt-multi-thread", "signal"] }

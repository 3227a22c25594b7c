[package]
name = "accounter"
version = "0.1.0"
edition = "2021"
publish = false

[dependencies]
rust_decimal = "1"
tokio = { version = "1", features = ["rt-multi-thread", "fs", "io-util", "io-std", "sync"] }
clap = { version = "3", features = ["derive", "env"] }
dotenv = "0.15"
log = "0.4"
pretty_env_logger = "0.4"

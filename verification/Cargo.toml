[package]
name = "db_guard"
version = "0.1.0"
edition = "2021"
publish = false

[dependencies]
anyhow = "=1.0.104"
clap = { version = "=4.6.7", features = ["derive", "env"] }
hickory-resolver = "=0.26.3"
rust_xlsxwriter = "=0.89.1"
tokio = { version = "=1.54.1", features = ["rt-multi-thread", "macros", "sync"] }
url = "=2.5.8"

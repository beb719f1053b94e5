[package]
name = "html_query"
version = "0.1.0"
edition = "2021"
publish = false

[dependencies]
anyhow = "1"
clap = { version = "4", features = ["derive"] }
env_logger = "*"
html_parser = "*"
log = "0.4"
reqwest = "*"
tokio = { version = "1", features = ["macros", "rt-multi-thread"] }

[package]
name = "vault"
version = "1.0.0"
edition = "2021"
publish = false

[dependencies]
clap = { version = "4", features = ["derive"] }
serde = { version = "1", features = ["derive"] }
thiserror = "*"
toml = "*"
tracing = "0.1"
tracing-subscriber = "0.3"

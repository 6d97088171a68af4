[package]
name = "chimera"
version = "0.1.0"
edition = "2021"
publish = false

[dependencies]
regex = "=1.13.1"
toml = "=0.8.23"
tracing = "0.1"
tracing-subscriber = { version = "0.3", features = ["env-filter", "json"] }

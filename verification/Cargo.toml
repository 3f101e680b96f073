[package]
name = "model_registry"
version = "0.1.0"
edition = "2021"
publish = false

[dependencies]
anyhow = "*"
clap = "*"
tokio = { version = "*", features = ["fs", "macros", "rt-multi-thread"] }

[package]
name = "manifest_pipeline"
version = "0.1.0"
edition = "2021"
publish = false

[dependencies]
egs-api = "*"
tokio = { version = "*", features = ["macros", "rt-multi-thread"] }
webbrowser = "*"
env_logger = "*"

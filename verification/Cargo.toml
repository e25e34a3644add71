[package]
name = "reaper_save_rs"
version = "0.1.0"
edition = "2021"
publish = false

[dependencies]
clap = { version = "*", features = ["derive"] }
color-eyre = "*"
eyre = "*"
inquire = "*"
tracing = "*"
tracing-subscriber = "*"

[package]
name = "staticserve"
version = "0.1.0"
edition = "2021"
publish = false

[dependencies]
actix-web = "4"
clap = { version = "4", features = ["derive"] }
env_logger = "*"
httpdate = "1"
mime_guess = "2"

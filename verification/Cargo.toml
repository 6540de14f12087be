[package]
name = "audio_cli"
version = "0.1.0"
edition = "2021"
publish = false

[dependencies]
log = "*"
rustyline = { version = "*", default-features = false, features = ["derive"] }
simplelog = "*"

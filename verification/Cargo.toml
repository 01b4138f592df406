[package]
name = "lobby_router"
version = "0.1.0"
edition = "2021"
publish = false

[dependencies]
cgmath = "*"
clap = { version = "4", features = ["derive"] }
itertools = "*"
lazy_static = "*"
regex = "*"
serde_json = "*"
walkdir = "*"

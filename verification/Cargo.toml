[package]
name = "goto"
version = "0.1.0"
edition = "2021"
publish = false

[dependencies]
anyhow = "1"
bincode = "1"
chrono = { version = "0.4", features = ["serde"] }
clap = { version = "4", features = ["derive"] }
crossterm = "0.28"
directories = "5"
serde = { version = "1", features = ["derive"] }
sled = "0.34"
toml = "0.8"
walkdir = "2"

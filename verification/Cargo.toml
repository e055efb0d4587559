[package]
name = "tagcore"
version = "0.1.0"
edition = "2021"
publish = false

[dependencies]
clap = { version = "4", features = ["derive"] }
directories = "*"
walkdir = "2"

[dev-dependencies]
toml = "0.8"

[package]
name = "dotpick"
version = "0.1.0"
edition = "2021"
publish = false

[dependencies]
serde_json = "1"
serde_norway = "*"
toml = "*"
thiserror = "*"
clap = { version = "4", features = ["derive"] }

[package]
name = "smartextract"
version = "0.1.0"
edition = "2021"
publish = false

[dependencies]
serde = { version = "*", features = ["derive"] }
serde_json = "*"
xdg = "*"
clap = { version = "*", features = ["derive"] }

[package]
name = "taxonomy"
version = "0.1.0"
edition = "2021"
publish = false

[dependencies]
heck = "*"
titlecase = "*"
serde = { version = "*", features = ["derive"] }
serde_json = "*"
toml = "*"

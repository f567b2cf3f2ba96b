[package]
name = "promptpath"
version = "0.1.0"
edition = "2021"
publish = false

[dependencies]
serde = { version = "*", features = ["derive"] }
thiserror = "*"
toml = "*"

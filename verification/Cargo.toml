[package]
name = "mimimi"
version = "0.1.0"
edition = "2021"
publish = false

[dependencies]
serde = { version = "1", features = ["derive"] }
serde_json = "1"
ureq = "3"
keyring = "3"
ratatui = "*"
crossterm = "*"
syntect = { version = "5", default-features = false, features = ["default-fancy"] }

[package]
name = "focus_blocker"
version = "0.1.0"
edition = "2021"
publish = false

[dependencies]
argon2 = "*"
serde = { version = "*", features = ["derive"] }
serde_json = "*"
thiserror = "*"
fs2 = "*"
directories = "*"
winreg = "*"

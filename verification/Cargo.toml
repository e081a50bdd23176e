[package]
name = "oxideterm"
version = "0.1.0"
edition = "2021"
publish = false

[dependencies]
anyhow = "=1.0.104"
keyring = { version = "=3.6.3", features = ["apple-native", "windows-native", "linux-native"] }
thiserror = "=2.0.21"
serde = { version = "=1.0.229", features = ["derive"] }
clap = { version = "=4.6.7", features = ["derive"] }
tempfile = "=3.27.0"

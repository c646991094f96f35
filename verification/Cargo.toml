[package]
name = "gliderlist"
version = "0.1.0"
edition = "2021"
publish = false

[dependencies]
anyhow = "=1.0.104"
csv = "=1.4.0"
headless_chrome = "=0.9.0"
indoc = "=2.0.7"
minijinja = "=2.24.0"
serde = { version = "=1.0.229", features = ["derive"] }
url = "=2.5.8"

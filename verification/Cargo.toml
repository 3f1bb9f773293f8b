[package]
name = "plotica"
version = "0.1.0"
edition = "2021"
publish = false

[dependencies]
base64 = "0.22"
rand = "0.8"
sha2 = "0.10"
urlencoding = "2"
serde = { version = "1", features = ["derive"] }
serde_json = "1"
webbrowser = "1"
reqwest = { version = "0.12", features = ["blocking", "json"] }

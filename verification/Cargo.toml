[package]
name = "possess"
version = "0.1.0"
edition = "2021"
publish = false

[dependencies]
pulldown-cmark = { version = "0.12", default-features = false, features = ["html"] }
base64 = "0.22"
regex = "1"
mime_guess = "2"
axum = "0.7"
tokio = { version = "1", features = ["full"] }
tower-http = { version = "0.6", features = ["cors"] }
serde = { version = "1", features = ["derive"] }
serde_json = "1"
chrono = "0.4"
uuid = { version = "1", features = ["v4"] }
walkdir = "2"
fs_extra = "1"
dunce = "1"

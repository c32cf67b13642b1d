[package]
name = "readingcomics"
version = "0.1.1"
edition = "2021"
publish = false

[dependencies]
base64 = "=0.22.1"
quick-xml = "=0.38.4"
serde = { version = "=1.0.229", features = ["derive"] }
serde_json = "=1.0.154"
zip = { version = "=2.6.1", default-features = false, features = ["deflate"] }
unrar = "=0.5.8"
walkdir = "=2.5.0"
image = { version = "=0.25.10", default-features = false, features = ["jpeg", "png", "gif", "webp", "bmp"] }
reqwest = { version = "=0.12.28", default-features = false, features = ["json", "rustls-tls"] }
keyring = "=3.6.3"

[package]
name = "deix"
version = "0.2.0"
edition = "2021"
publish = false

[dependencies]
sha2 = { version = "0.10", default-features = false }
pbkdf2 = { version = "0.12", default-features = false, features = ["hmac"] }
hmac = { version = "0.12", default-features = false }
aes = { version = "0.8", default-features = false }

[package]
name = "pty_session"
version = "0.1.0"
edition = "2021"
publish = false

[dependencies]
portable-pty = "=0.9.0"
serde = { version = "=1.0.229", features = ["derive"] }
serde_json = "=1.0.151"
base64 = "=0.22.1"
chacha20poly1305 = "=0.10.1"
keyring = { version = "=4.2.0", default-features = false, features = ["v1"] }
rand_core = { version = "=0.6.4", features = ["getrandom"] }

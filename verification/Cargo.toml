[package]
name = "rencfs"
version = "0.1.0"
edition = "2021"
publish = false

[dependencies]
aes-gcm = "0.10"
anyhow = "1"
argon2 = "0.5"
base64 = "0.22"
chacha20poly1305 = "0.10"
fuse3 = { version = "*", features = ["tokio-runtime", "unprivileged"] }
futures-util = "0.3"
keyring = { version = "2", default-features = false }
libc = "0.2"
rand = "0.8"
secrecy = "0.8"
tracing = "0.1"
tracing-appender = "0.2"
tracing-subscriber = { version = "0.3", features = ["env-filter"] }

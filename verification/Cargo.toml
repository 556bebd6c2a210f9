[package]
name = "qeli"
version = "0.1.0"
edition = "2021"
publish = false

[dependencies]
x25519-dalek = { version = "=2.0.1", features = ["static_secrets", "getrandom"] }
subtle = "=2.6.1"
hkdf = "=0.12.4"
sha2 = "=0.10.9"
chacha20poly1305 = "=0.10.1"
tokio = { version = "=1.54.1", features = ["net", "time", "sync", "io-util", "rt", "macros"] }
anyhow = "=1.0.104"
log = "=0.4.35"

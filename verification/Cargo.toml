[package]
name = "zolal-core"
version = "0.1.0"
edition = "2021"
publish = false

[dependencies]
aead-stream = "*"
argon2 = { version = "*", features = ["zeroize"] }
chacha20poly1305 = "*"
getrandom = "*"
secrecy = "*"
thiserror = "*"
zeroize = "*"

[dev-dependencies]
jpeg-decoder = "*"
jpeg-encoder = "*"
lopdf = "*"
mp4 = "*"

[package]
name = "voicechat"
version = "0.1.0"
edition = "2021"
publish = false

[dependencies]
anyhow = "1"
argon2 = "0.5"
audiopus = "0.3.0-rc.0"
chacha20poly1305 = "0.10"
clap = { version = "4", default-features = false, features = ["std", "help", "usage", "error-context", "derive"] }
cpal = "0.15"
ctrlc = "3"
env_logger = { version = "0.11", default-features = false }
hkdf = "0.12"
igd-next = "0.15"
log = "0.4"
nnnoiseless = { version = "0.5", default-features = false }
rand = "0.8"
ringbuf = "0.4"
sha2 = "0.10"
socket2 = "0.5"
x25519-dalek = { version = "2", features = ["static_secrets"] }

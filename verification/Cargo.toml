[package]
name = "dplock"
version = "0.1.0"
edition = "2021"
publish = false

[dependencies]
anyhow = "1"
arboard = "3"
argon2 = "0.5"
base64 = "0.22"
bincode = "1.3"
chacha20poly1305 = "0.10"
chrono = "0.4"
clap = "4"
crossterm = "0.27"
dirs = "5"
keyring = "2"
rand = "0.8"
regex = "1"
rpassword = "7"
serde = { version = "1", features = ["derive"] }
serde_json = "1"
terminal_size = "0.3"
textwrap = "0.16"

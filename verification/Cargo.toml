[package]
name = "nv"
version = "0.1.0"
edition = "2021"
publish = false

[dependencies]
anyhow = "1"
clap = { version = "4", features = ["derive"] }
serde = { version = "1", features = ["derive"] }
serde_yaml = "0.9"
similar = "2"
nucleo-matcher = "0.3"
glob = "0.3"
regex = "1"
aho-corasick = "1"
dialoguer = "0.11"
indicatif = "0.17"
ratatui = "*"
crossterm = "*"
rand = "*"
hex = "0.4"
base64 = "0.22"
aes-gcm = "0.10"
pbkdf2 = "0.12"
sha2 = "0.10"

[package]
name = "ciphermount"
version = "0.1.0"
edition = "2021"
publish = false

[dependencies]
ring = "*"
fuser = "*"
libc = "*"
clap = { version = "*", features = ["derive", "env"] }
env_logger = "*"
log = "*"
hex = "*"
anyhow = "*"

[package]
name = "nado"
version = "0.1.0"
edition = "2021"
publish = false

[dependencies]
anyhow = "*"
clap = { version = "*", features = ["derive"] }
indicatif = "*"
libc = "*"
rand = "*"
rayon = "*"
serde = { version = "*", features = ["derive"] }
toml = "*"
wait-timeout = "*"

[package]
name = "kraken_rs"
version = "0.1.0"
edition = "2021"
publish = false

[dependencies]
rand = "0.9"
anyhow = "1"
directories = "5"
serde = { version = "1", features = ["derive"] }
serde_json = "1"
x11rb = "0.13"
enigo = "0.1"
rdev = "0.5"

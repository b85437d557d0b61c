[package]
name = "verz_link"
version = "0.1.0"
edition = "2021"
publish = false

[dependencies]
anyhow = "1"
clap = { version = "4", features = ["derive"] }
hex = "0.4"
hkdf = "0.12"
hmac = "0.12"
libc = "0.2"
rand = "*"
serde = { version = "1", features = ["derive"] }
serde_json = "1"
sha2 = "0.10"
snow = "*"
tokio = { version = "1", features = ["full"] }
tun-rs = { version = "*", features = ["async"] }

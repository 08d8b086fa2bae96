[package]
name = "simple_ca"
version = "0.1.0"
edition = "2021"
publish = false

[dependencies]
openssl = "*"
anyhow = "*"
clap = "*"
dirs = "*"
serde = { version = "*", features = ["derive"] }
thiserror = "*"
toml = "*"

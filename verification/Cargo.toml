[package]
name = "chaosymmetry"
version = "0.1.0"
edition = "2021"
publish = false

[dependencies]
rand = "*"
num = "*"
serde = { version = "*", features = ["derive"] }
toml = "*"
png = "*"

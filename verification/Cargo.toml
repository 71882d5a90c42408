[package]
name = "pinto"
version = "0.1.0"
edition = "2021"
publish = false

[dependencies]
chrono = { version = "=0.4.45", default-features = false, features = ["std", "clock"] }
regex = "=1.13.1"
toml = "*"

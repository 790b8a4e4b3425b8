[package]
name = "csecmd"
version = "0.1.0"
edition = "2021"
publish = false

[dependencies]
chrono = "0.4"
console = "0.15"
home = "0.5"
ignore = "0.4"
indicatif = "0.17"
rpassword = "7"
serde = { version = "1", features = ["derive"] }
ssh2 = "0.9"
toml = "0.8"

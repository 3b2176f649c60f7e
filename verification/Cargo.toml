[package]
name = "runner"
version = "0.1.0"
edition = "2021"
publish = false

[dependencies]
semver = "*"
serde_json = "*"
toml = "*"
serde = { version = "*", features = ["derive"] }
lapp = "*"
shlex = "*"
dirs = "*"

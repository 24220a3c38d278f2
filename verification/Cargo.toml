[package]
name = "tmuxlayout"
version = "0.1.0"
edition = "2021"
publish = false

[dependencies]
context-attribute = "*"
failure = "0.1"
filepath = "*"
log = "0.4"
log4rs = "1"
serde = { version = "1", features = ["derive"] }
serde_yaml = "*"
structopt = "0.3"
tempfile = "3"

[package]
name = "pipesh"
version = "0.1.0"
edition = "2021"
publish = false

[dependencies]
getopts = "0.2"
shlex = "1"
irc = { version = "*", default-features = false }
redis = "*"
tokio = { version = "1", features = ["rt", "macros"] }
futures = "0.3"

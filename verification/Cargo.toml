[package]
name = "irc_bot"
version = "0.1.0"
edition = "2021"
publish = false

[dependencies]
mio = "0.6"
pircolate = "*"

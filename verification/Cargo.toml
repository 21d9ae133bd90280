[package]
name = "morsebot"
version = "0.1.0"
edition = "2021"
publish = false

[dependencies]
ron = "*"
clap = "2"
env_logger = "*"
log = "*"
inputbot = "*"

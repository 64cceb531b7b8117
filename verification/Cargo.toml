[package]
name = "game_scanner"
version = "0.1.0"
edition = "2021"
publish = false

[dependencies]
rust-ini = "0.21"
serde_json = "1"
directories = "5"
fstrings = "0.2"
iced = { version = "0.13", default-features = false }

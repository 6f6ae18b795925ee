[package]
name = "blockstorm"
version = "0.1.0"
edition = "2021"
publish = false

[dependencies]
rand = "0.8"
termion = "1.5"
tui = { version = "0.19", default-features = false, features = ["termion"] }

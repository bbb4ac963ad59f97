[package]
name = "rc"
version = "0.1.0"
edition = "2021"
publish = false

[dependencies]
atty = "0.2"
linefeed = "*"
notify-rust = { version = "4", default-features = false, features = ["z"] }

[package]
name = "poolwords"
version = "0.1.0"
edition = "2021"
publish = false

[dependencies]
dotenv = "*"
tokio = { version = "*", features = ["rt-multi-thread", "macros"] }
twitch-irc = "*"

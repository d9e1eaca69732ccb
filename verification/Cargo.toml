[package]
name = "poot_server"
version = "0.1.0"
edition = "2021"
publish = false

[dependencies]
actix-web = "*"
noise = "*"
tokio = { version = "*", features = ["macros", "rt-multi-thread", "signal"] }

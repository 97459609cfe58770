[package]
name = "pung"
version = "0.1.0"
edition = "2021"
publish = false

[dependencies]
nanoid = "0.4"
chrono = "0.4"
rand = "0.9"
tokio = { version = "1", features = ["full"] }
clap = "4"
rustyline = "*"
dashmap = "*"
hex = "0.4"
get_if_addrs = "*"
unicode-width = "*"

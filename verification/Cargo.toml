[package]
name = "podstats"
version = "0.2.0"
edition = "2021"
publish = false

[dependencies]
rmp = "0.8"
rmp-serde = "1"
serde = { version = "1", features = ["derive"] }
serde_derive = "1"
serde_yaml = "0.9"
itertools = "*"
xdg = "2"
clap = "2"
termion = "1"

[package]
name = "blockgame"
version = "0.1.0"
edition = "2021"
publish = false

[dependencies]
nalgebra = "*"
slog = "2"
sloggers = "*"

[dev-dependencies]
bincode = "1"

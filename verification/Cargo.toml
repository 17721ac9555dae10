[package]
name = "a_puzzle_a_day"
version = "0.1.0"
edition = "2021"
publish = false

[dependencies]
chrono = "*"
clap = { version = "*", features = ["derive"] }
console = "*"
crossterm = "*"
dialoguer = "*"
indicatif = "*"
rand = "*"
ratatui = "*"

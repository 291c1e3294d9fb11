[package]
name = "resub"
version = "0.1.0"
edition = "2021"
publish = false

[dependencies]
regex = "*"
crossterm = "*"
ratatui = "*"

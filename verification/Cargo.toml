[package]
name = "glit"
version = "0.1.0"
edition = "2021"
publish = false

[dependencies]
fuzzy-matcher = "0.3"
ratatui = "0.29"
crossterm = "0.28"
arboard = { version = "3", default-features = false }

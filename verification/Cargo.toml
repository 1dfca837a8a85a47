[package]
name = "abyss-top"
version = "1.0.0"
edition = "2021"
publish = false

[dependencies]
anyhow = "1.0"
crossterm = "0.27"
ratatui = "0.26"
sysinfo = "0.30"

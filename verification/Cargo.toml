[package]
name = "projpick"
version = "0.1.0"
edition = "2021"
publish = false

[dependencies]
anyhow = "*"
clap = { version = "*", features = ["derive"] }
crossterm = "*"
num_cpus = "*"
ratatui = "*"
tui-input = "*"

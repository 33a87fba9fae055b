[package]
name = "javelin"
version = "0.1.0"
edition = "2021"
publish = false

[dependencies]
anyhow = "*"
arrow = "*"
clap = { version = "*", features = ["derive"] }
crossterm = "*"
env_logger = "*"
log = "*"
rand = "*"
rand_distr = "*"
ratatui = "*"
sprs = "*"

[package]
name = "ripdiff"
version = "0.1.0"
edition = "2021"
publish = false

[dependencies]
anyhow = "1"
clap = { version = "4", features = ["derive"] }
crossterm = "*"
diffy = "0.4"
ignore = "0.4"
log = "0.4"
ratatui = "*"
rayon = "1"
simple_logger = "*"
tempfile = "3"

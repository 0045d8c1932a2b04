[package]
name = "utui"
version = "0.1.0"
edition = "2021"
publish = false

[dependencies]
crossterm = "=0.29.0"
cli-truncate = "=0.1.1"

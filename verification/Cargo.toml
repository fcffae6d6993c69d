[package]
name = "bbsg_a08"
version = "0.1.0"
edition = "2021"
publish = false

[dependencies]
regex = "=1.13.1"
financial = "=1.1.5"
bincode = "=2.0.1"

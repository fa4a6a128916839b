[package]
name = "zeilen_angabe"
version = "0.1.0"
edition = "2021"
publish = false

[dependencies]
regex = "1"
anyhow = "1"
inquire = "*"
lazy_static = "1"

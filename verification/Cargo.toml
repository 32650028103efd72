[package]
name = "wl_scanner"
version = "0.1.0"
edition = "2021"
publish = false

[dependencies]
quick-xml = "=0.37.5"
regex = "=1.13.1"
anyhow = "=1.0.104"

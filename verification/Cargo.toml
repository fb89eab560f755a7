[package]
name = "csvview"
version = "0.1.0"
edition = "2021"
publish = false

[dependencies]
clap = "2"
csv = "1"
libc = "0.2"
unicode-width = "0.1"

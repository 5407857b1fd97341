[package]
name = "wimd"
version = "0.1.0"
edition = "2021"
publish = false

[dependencies]
regex = "1"
unicase = "2"
pulldown-cmark = "*"
clap = "*"

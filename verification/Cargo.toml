[package]
name = "playlistr"
version = "0.1.0"
edition = "2021"
publish = false

[dependencies]
percent-encoding = "2"
eyre = "0.6"
clap = "2"

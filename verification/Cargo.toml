[package]
name = "pinout"
version = "0.1.0"
edition = "2021"
publish = false

[dependencies]
csv = "1"
flate2 = "1"
itertools = "*"
regex = "1"
roxmltree = "*"
structopt = "0.3"

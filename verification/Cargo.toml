[package]
name = "ipdb_parser"
version = "0.1.0"
edition = "2021"
publish = false

[dependencies]
encoding = "*"
flate2 = "*"
attohttpc = { version = "*", default-features = false }
clap = "*"
regex = "*"
shellexpand = "*"

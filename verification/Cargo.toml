[package]
name = "monat"
version = "0.1.0"
edition = "2021"

[dependencies]
path-absolutize = "*"
shellexpand = "*"
structopt = "*"

[package]
name = "dff"
version = "0.1.0"
edition = "2021"
publish = false

[dependencies]
csv = "1"
structopt = "0.3"

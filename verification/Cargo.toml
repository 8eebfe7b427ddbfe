[package]
name = "rename_rules"
version = "0.1.0"
edition = "2021"
publish = false

[dependencies]
skim = "*"
structopt = "*"
promptly = "*"
tempfile = "*"

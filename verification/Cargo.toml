[package]
name = "provinces"
version = "0.1.0"
edition = "2021"
publish = false

[dependencies]
rand = "*"
image = "*"
regex = "*"
notify = "*"
ctrlc = "*"
dirs = "*"

[package]
name = "portforwarder_rs"
version = "0.1.0"
edition = "2021"
publish = false

[dependencies]
igd = "*"
get_if_addrs = "*"
ctrlc = "*"

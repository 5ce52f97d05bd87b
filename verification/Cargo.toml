[package]
name = "stripboard_autorouter"
version = "0.1.0"
edition = "2021"
publish = false

[dependencies]
rand = "0.8"
regex = "1"
num_cpus = "1"

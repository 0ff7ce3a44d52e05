[package]
name = "di"
version = "0.1.0"
edition = "2021"
publish = false

[dependencies]
ansi_term = "*"
clap = "*"
ignore = "*"
num_cpus = "*"
pretty-bytes = "*"
separator = "*"

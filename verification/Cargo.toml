[package]
name = "target_cleaner"
version = "0.1.0"
edition = "2021"
publish = false

[dependencies]
ignore = "*"
num_cpus = "*"

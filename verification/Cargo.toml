[package]
name = "kvparser"
version = "0.1.0"
edition = "2021"
publish = false

[dependencies]
deque = "*"
memmap = "*"
num_cpus = "*"

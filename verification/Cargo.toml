[package]
name = "ccl"
version = "0.1.0"
edition = "2021"
publish = false

[dependencies]
crossbeam-epoch = "*"
num_cpus = "*"
rand = "*"
seahash = "*"

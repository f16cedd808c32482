[package]
name = "graml"
version = "0.1.0"
edition = "2021"
publish = false

[dependencies]
crossbeam = "*"
itertools = "*"
num_cpus = "*"
rand = "*"

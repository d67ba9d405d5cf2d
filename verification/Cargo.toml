[package]
name = "corundum"
version = "0.1.0"
edition = "2021"
publish = false

[dependencies]
num_cpus = "1"
memmap = "0.7"
libc = "0.2"

[package]
name = "huff_coding"
version = "0.1.0"
edition = "2021"
publish = false

[dependencies]
clap = "4"
num_cpus = "1"

[package]
name = "inko_rt"
version = "0.1.0"
edition = "2021"
publish = false

[dependencies]
num_cpus = "1"
parking_lot = "0.12"
rayon = "1"

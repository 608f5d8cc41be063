[package]
name = "algebraic_structures"
version = "0.1.0"
edition = "2021"
publish = false

[dependencies]
bitvec = "1"
hex = "0.4"
num-bigint = { version = "0.4", features = ["rand"] }
num-integer = "0.1"
num-traits = "0.2"
rand = "0.8"
rayon = "1"

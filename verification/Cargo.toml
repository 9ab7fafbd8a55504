[package]
name = "monarch_butterfly"
version = "0.1.0"
edition = "2021"
publish = false

[dependencies]
num-complex = "0.4"
num-integer = "0.1"
num-traits = "0.2"

[package]
name = "rhythm_core"
version = "0.1.0"
edition = "2021"
publish = false

[dependencies]
bms-rs = "*"
encoding_rs = "*"
num-traits = "*"
walkdir = "*"

[package]
name = "minarrow"
version = "0.11.0"
edition = "2021"
publish = false

[dependencies]
num-traits = "=0.2.19"
vec64 = "=0.4.7"

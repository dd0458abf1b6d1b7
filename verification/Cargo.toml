[package]
name = "tfhe_gsw"
version = "0.1.0"
edition = "2021"
publish = false

[dependencies]
rand = "*"
prio = "*"
num-bigint = "*"
num-rational = "*"

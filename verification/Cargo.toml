[package]
name = "oracle_multicall"
version = "0.1.0"
edition = "2021"
publish = false

[dependencies]
alloy-primitives = "*"

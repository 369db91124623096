[package]
name = "bellperson"
version = "0.1.0"
edition = "2021"
publish = false

[dependencies]
blstrs = "*"
blake2s_simd = "*"

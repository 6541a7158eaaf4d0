[package]
name = "fs_capture"
version = "0.1.0"
edition = "2021"
publish = false

[dependencies]
globset = "*"
lz4_flex = "*"
md-5 = "*"
sha3 = "*"
walkdir = "*"

[package]
name = "quick_pickle"
version = "0.1.0"
edition = "2021"

[dependencies]
atoi = "*"

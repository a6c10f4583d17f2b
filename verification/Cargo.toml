[package]
name = "lowest_terms"
version = "0.1.0"
edition = "2021"
publish = false

[dependencies]
grabinput = "=0.1.1"

[package]
name = "ematch"
version = "0.1.0"
edition = "2021"

[dependencies]
indexmap = "*"

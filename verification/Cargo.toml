[package]
name = "tokenizer"
version = "0.1.0"
edition = "2021"
publish = false

[dependencies]
anyhow = "1"
approx = "0.5"
indexmap = "2"
itertools = "*"
ureq = "3"
uuid = "1"

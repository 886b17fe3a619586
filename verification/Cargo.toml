[package]
name = "indexed_streams"
version = "0.1.0"
edition = "2021"
publish = false

[dependencies]
replace_with = "*"

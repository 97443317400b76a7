[package]
name = "db185"
version = "0.1.0"
edition = "2021"
publish = false

[dependencies]
memmap2 = "0.9"
thiserror = "2"

[package]
name = "axmemory"
version = "0.1.0"
edition = "2021"
publish = false

[dependencies]
memory_addr = "*"

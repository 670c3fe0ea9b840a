[package]
name = "streamunordered"
version = "0.1.0"
edition = "2021"
publish = false

[dependencies]
slab = "*"
futures-core = "*"
futures-util = "*"

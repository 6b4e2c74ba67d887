[package]
name = "advent23"
version = "0.1.0"
edition = "2021"
publish = false

[dependencies]
anyhow = "1"
array2d = "*"
num = "*"
priority-queue = "*"
regex = "1"

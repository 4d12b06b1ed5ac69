[package]
name = "rspell"
version = "0.1.0"
edition = "2021"
publish = false

[dependencies]
anyhow = "*"
dirs = "*"
rustyline = "*"
trying = "*"

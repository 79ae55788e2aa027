[package]
name = "memfrob"
version = "0.1.0"
edition = "2021"
publish = false

[dependencies]
palette = "=0.7.7"
nannou = "=0.19.0"
clap = { version = "=4.6.7", features = ["derive"] }
num = "=0.4.3"
noise = "0.9"

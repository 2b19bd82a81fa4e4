[package]
name = "rusty_sat"
version = "0.1.0"
edition = "2021"
publish = false

[dependencies]
indexmap = { version = "1", features = ["std"] }
rand = "0.7"
clap = "2"
time = "0.1"

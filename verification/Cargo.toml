[package]
name = "frequencycounter"
version = "0.1.0"
edition = "2021"
publish = false

[dependencies]
separator = "*"
serialport = { version = "4", default-features = false }

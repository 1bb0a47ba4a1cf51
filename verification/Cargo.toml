[package]
name = "srglib"
version = "0.1.0"
edition = "2021"
publish = false

[dependencies]
difference = "2"

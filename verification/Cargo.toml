[package]
name = "tcalc"
version = "0.1.0"
edition = "2021"
publish = false

[dependencies]
fastnum = "=0.7.5"

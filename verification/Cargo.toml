[package]
name = "qrqrpar"
version = "0.1.0"
edition = "2021"
publish = false

[dependencies]
hashbrown = "*"
resvg = "0.37"

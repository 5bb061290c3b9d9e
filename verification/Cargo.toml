[package]
name = "haxagon"
version = "0.1.0"
edition = "2021"
publish = false

[dependencies]
quad-rand = "*"

[dev-dependencies]
hex2d = "*"

[package]
name = "scz"
version = "0.1.0"
edition = "2021"
publish = false

[dependencies]
chrono = "0.4"
glam = "*"
swiss-eph = "*"
pollster = "0.3"

[package]
name = "rpsrtsrs"
version = "0.1.0"
edition = "2021"
publish = false

[dependencies]
cgmath = "0.18"
num = "0.4"
piston2d-graphics = "0.44"
rand = "0.8"

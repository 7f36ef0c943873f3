[package]
name = "graphing_calculator"
version = "0.1.0"
edition = "2021"
publish = false

[dependencies]
num = "0.4"
macroquad = { version = "0.4", default-features = false }

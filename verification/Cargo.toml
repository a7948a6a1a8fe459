[package]
name = "textchart"
version = "0.1.0"
edition = "2021"
publish = false

[dependencies]
drawille = "0.3"
rgb = "0.8"

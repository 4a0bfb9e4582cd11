[package]
name = "frontend"
version = "0.1.0"
edition = "2021"
publish = false

[dependencies]
la-arena = "0.3"
rowan = "0.15"

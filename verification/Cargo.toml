[package]
name = "tspl"
version = "0.1.0"
edition = "2021"
publish = false

[dependencies]
highlight_error = "*"

[package]
name = "operators"
version = "0.1.0"
edition = "2021"

[dependencies]
digit-layout = "*"

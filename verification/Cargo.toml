[package]
name = "linecode"
version = "0.1.0"
edition = "2021"

[dependencies]
libftd2xx = "*"

[package]
name = "bk2_to_gbi"
version = "0.1.0"
edition = "2021"
publish = false

[dependencies]
json = "*"
zip = "*"
clap = "*"

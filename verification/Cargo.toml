[package]
name = "indexing"
version = "0.1.0"
edition = "2021"
publish = false

[dependencies]
color-eyre = "*"
dialoguer = "*"
notify = "4"
regex = "*"
thiserror = "*"
tracing = "*"
tracing-subscriber = "*"
unicode-normalization = "*"
walkdir = "*"

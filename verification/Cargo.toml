[package]
name = "treewalker"
version = "0.1.0"
edition = "2021"
publish = false

[dependencies]
clap = "*"
walkdir = "*"

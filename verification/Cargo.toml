[package]
name = "paradox_defs"
version = "0.1.0"
edition = "2021"
publish = false

[dependencies]
indexmap = "*"
walkdir = "*"
rayon = "*"
tree-sitter = "*"

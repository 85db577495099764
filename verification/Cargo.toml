[package]
name = "gdscript_formatter"
version = "0.1.0"
edition = "2021"

[dependencies]
tree-sitter = "=0.26.13"
tree-sitter-gdscript = "=6.1.0"

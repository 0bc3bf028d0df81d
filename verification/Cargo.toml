[package]
name = "dom_tree"
version = "0.1.0"
edition = "2021"
publish = false

[dependencies]
html5ever = "*"
rc = "*"
string_cache = "0.2.29"

[package]
name = "tsp_cover_tree"
version = "0.1.0"
edition = "2021"
publish = false

[dependencies]
rand = "0.9"
itertools = "0.14"
ordered-float = "5"

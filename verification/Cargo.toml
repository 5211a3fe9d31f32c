[package]
name = "avl_arena"
version = "0.1.0"
edition = "2021"
publish = false

[dependencies]
rand = "0.9"
render_as_tree = "*"

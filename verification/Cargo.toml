[package]
name = "digraph_rs"
version = "0.1.0"
edition = "2021"
publish = false

[dependencies]
graphviz-rust = "*"
rand = "0.8"

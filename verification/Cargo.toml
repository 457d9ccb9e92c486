[package]
name = "rustseq"
version = "0.1.0"
edition = "2021"
publish = false

[dependencies]
rusqlite = "*"
streaming-iterator = "*"
tree_iterators_rs = "*"

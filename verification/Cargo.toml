[package]
name = "refgraph"
version = "0.1.0"
edition = "2021"
publish = false

[dependencies]
bimap = "*"
petgraph = "0.6"
petgraph-graphml = "3"
brotlic = "*"
walkdir = "*"

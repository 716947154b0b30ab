[package]
name = "rustdb"
version = "0.1.0"
edition = "2021"

[dependencies]
csv = "1"
dashmap = "5"
rayon = "1"

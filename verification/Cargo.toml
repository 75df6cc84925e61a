[package]
name = "embedded_bktree"
version = "0.1.0"
edition = "2021"

[dependencies]
levenshtein = "*"

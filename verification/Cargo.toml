[package]
name = "sudoku_gen"
version = "0.1.0"
edition = "2021"
publish = false

[dependencies]
itertools = "0.14"
indicatif = "0.17"

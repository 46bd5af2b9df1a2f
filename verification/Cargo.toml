[package]
name = "puzzle_solver"
version = "0.1.0"
edition = "2021"
publish = false

[dependencies]
ndarray = "*"
image = "*"
imageproc = "*"
scoped-pool = "*"
argparse = "*"

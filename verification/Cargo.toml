[package]
name = "graph_reduce"
version = "0.1.0"
edition = "2021"
publish = false

[dependencies]
orx-imp-vec = "*"
orx-parallel = "*"
orx-concurrent-queue = "*"
rand = "*"
rand_chacha = "*"
clap = { version = "*", features = ["derive"] }
chili = "*"
paralight = "*"
rayon = "*"

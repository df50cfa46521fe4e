[package]
name = "graph_mcts"
version = "0.1.0"
edition = "2021"
publish = false

[dependencies]
clap = { version = "4", features = ["derive"] }
indextree = "4"
nalgebra = "0.32"
rand = "0.8"

[package]
name = "parallel_bfs"
version = "0.1.0"
edition = "2021"

[dev-dependencies]
rayon = "1"

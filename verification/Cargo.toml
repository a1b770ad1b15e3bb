[package]
name = "dungeon_solver"
version = "0.1.0"
edition = "2021"
publish = false

[dependencies]
bitvec = "1"
tinyvec = "1"
rayon = "1"
lazy_static = "1"

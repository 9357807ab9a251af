[package]
name = "gol_rs"
version = "0.1.0"
edition = "2021"
publish = false

[dependencies]
petgraph = "*"
image = { version = "*", default-features = false, features = ["png"] }
minifb = "*"
rand = "*"

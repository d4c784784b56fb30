[package]
name = "quadtree"
version = "0.1.0"
edition = "2021"

[dependencies]
geo = "0.29"
num-traits = "0.2"
rstar = "0.12"

[dev-dependencies]
approx = "0.5"

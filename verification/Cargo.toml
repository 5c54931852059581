[package]
name = "rt"
version = "0.1.0"
edition = "2021"
publish = false

[dependencies]
glam = "0.20"
bvh = "0.5"
rayon = "1"
num_cpus = "1"
pixel-canvas = "0.2"
minifb = "0.19"

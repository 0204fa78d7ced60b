[package]
name = "nbody_divergence"
version = "0.1.0"
edition = "2021"
publish = false

[dependencies]
glam = "0.24"
rayon = "1"
rand = "0.8"
plotters = "0.3"
plotters-backend = "0.3"
lazy_static = "1.4"
